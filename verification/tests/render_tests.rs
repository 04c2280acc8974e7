use cycle_midi::ast::CondScope;
use cycle_midi::arp::{arp_pattern, sort_unique_notes};
use cycle_midi::ast::{ArpStyle, ExtractType, ScaleDef, SeedDef, SeedInterval};
use cycle_midi::chord::{
    apply_offset_limit, chord_velocity, chordify_pitches, distinct_pitches, drop_voice, extract_positions,
    invert_voices, transpose_pitch, wrap_base, wrap_pitch,
};
use cycle_midi::parser::program::{mmn_parser, node_parser};
use cycle_midi::render::{
    alternator_choice, arrange_selection, condition_holds, global_scale, step_plays, tracks_to_render, macro_cycle_index, pick_branch, probability_passes,
    seed_for_cycle, shuffled_order, track_scale,
};
use cycle_midi::rhythm::euclid_hits;
use cycle_midi::ast::Node;
use rand::rngs::StdRng;
use rand::SeedableRng;

fn pitches(v: &[(u8, u8)]) -> Vec<u8> {
    v.iter().map(|n| n.0).collect()
}

#[test]
fn notes_sort_and_keep_first_velocity() {
    let s = sort_unique_notes(&vec![(67, 1), (60, 2), (64, 3), (60, 9)]);
    assert_eq!(s, vec![(60, 2), (64, 3), (67, 1)]);
}

#[test]
fn arp_orders() {
    let s = vec![(60, 1), (62, 1), (64, 1), (65, 1), (67, 1)];
    assert_eq!(pitches(&arp_pattern(&s, ArpStyle::Up)), vec![60, 62, 64, 65, 67]);
    assert_eq!(pitches(&arp_pattern(&s, ArpStyle::Down)), vec![67, 65, 64, 62, 60]);
    assert_eq!(pitches(&arp_pattern(&s, ArpStyle::UpDown)), vec![60, 62, 64, 65, 67, 65, 64, 62]);
    assert_eq!(pitches(&arp_pattern(&s, ArpStyle::DownUp)), vec![67, 65, 64, 62, 60, 62, 64, 65]);
    assert_eq!(pitches(&arp_pattern(&s, ArpStyle::Converge)), vec![60, 67, 62, 65, 64]);
    assert_eq!(pitches(&arp_pattern(&s, ArpStyle::Diverge)), vec![64, 62, 65, 60, 67]);
    assert_eq!(pitches(&arp_pattern(&s, ArpStyle::PinkyUp)), vec![60, 67, 62, 67, 64, 67, 65, 67]);
    assert_eq!(
        pitches(&arp_pattern(&s, ArpStyle::PinkyUpDown)),
        vec![60, 67, 62, 67, 64, 67, 65, 67, 64, 67, 62, 67]
    );
    let four = vec![(60, 1), (62, 1), (64, 1), (65, 1)];
    assert_eq!(pitches(&arp_pattern(&four, ArpStyle::Diverge)), vec![62, 64, 60, 65]);
    let one = vec![(60, 1)];
    assert_eq!(pitches(&arp_pattern(&one, ArpStyle::PinkyUpDown)), vec![60]);
    let two = vec![(60, 1), (64, 1)];
    assert_eq!(pitches(&arp_pattern(&two, ArpStyle::UpDown)), vec![60, 64]);
}

#[test]
fn euclid_patterns() {
    let h = euclid_hits(3, 8);
    assert_eq!(h, vec![true, false, false, true, false, false, true, false]);
    assert_eq!(h.iter().filter(|x| **x).count(), 3);
    let all = euclid_hits(9, 4);
    assert_eq!(all, vec![true, true, true, true]);
    assert!(euclid_hits(0, 8).is_empty());
    assert!(euclid_hits(3, 0).is_empty());
    for p in 1..=16u8 {
        for s in 1..=16u8 {
            let c = euclid_hits(p, s).iter().filter(|x| **x).count();
            assert_eq!(c, p.min(s) as usize);
        }
    }
}

#[test]
fn chord_operations() {
    assert_eq!(transpose_pitch(60, 12), 72);
    assert_eq!(transpose_pitch(120, 12), 127);
    assert_eq!(transpose_pitch(5, -12), 0);
    assert_eq!(invert_voices(&vec![60, 64, 67], 1), vec![72, 64, 67]);
    assert_eq!(invert_voices(&vec![60, 64, 67], 3), vec![72, 76, 79]);
    assert_eq!(invert_voices(&vec![60, 64, 67], 4), vec![84, 76, 79]);
    assert_eq!(invert_voices(&vec![60, 64, 67], -1), vec![60, 64, 55]);
    assert_eq!(invert_voices(&vec![60, 64, 67], 0), vec![60, 64, 67]);
    assert_eq!(drop_voice(&vec![60, 64, 67], 2), vec![60, 52, 67]);
    assert_eq!(drop_voice(&vec![60, 64, 67], 4), vec![60, 64, 67]);
    assert_eq!(drop_voice(&vec![60, 64, 67], 0), vec![60, 64, 67]);
}

#[test]
fn offsets_and_limits() {
    let v = vec![1, 2, 3, 4, 5];
    assert_eq!(apply_offset_limit(&v, None, 2), vec![3, 4, 5]);
    assert_eq!(apply_offset_limit(&v, None, -2), vec![1, 2, 3]);
    assert_eq!(apply_offset_limit(&v, Some(2), 0), vec![1, 2]);
    assert_eq!(apply_offset_limit(&v, Some(-2), 0), vec![4, 5]);
    assert_eq!(apply_offset_limit(&v, Some(-9), 0), vec![1, 2, 3, 4, 5]);
    assert_eq!(apply_offset_limit(&v, Some(0), 0), Vec::<i32>::new());
    assert_eq!(apply_offset_limit(&v, Some(1), 9), Vec::<i32>::new());
    assert_eq!(extract_positions(3, ExtractType::Highest, Some(1), 0), vec![2]);
    assert_eq!(extract_positions(3, ExtractType::Lowest, Some(2), 1), vec![1, 2]);
    assert_eq!(extract_positions(4, ExtractType::Highest, None, -1), vec![3, 2, 1]);
}

#[test]
fn chordify_collapses_pitches() {
    assert_eq!(distinct_pitches(&vec![67, 60, 64, 60]), vec![60, 64, 67]);
    assert_eq!(chordify_pitches(&vec![67, 60, 64, 60, 72], Some(2), 1), vec![64, 67]);
    assert_eq!(chord_velocity(0, None), 100);
    assert_eq!(chord_velocity(90, None), 90);
    assert_eq!(chord_velocity(90, Some(40)), 40);
}

#[test]
fn wrap_folds_into_octave_window() {
    let base = wrap_base(&Some(ScaleDef { root_pitch: 60, intervals: vec![0] }), 0);
    assert_eq!(base, 60);
    assert_eq!(wrap_base(&None, -1), 48);
    assert_eq!(wrap_pitch(72, 60), 60);
    assert_eq!(wrap_pitch(71, 60), 71);
    assert_eq!(wrap_pitch(48, 60), 48);
    assert_eq!(wrap_pitch(47, 60), 59);
    assert_eq!(wrap_pitch(36, 60), 48);
    assert_eq!(wrap_pitch(90, 60), 66);
}

#[test]
fn alternator_and_arrange_selection() {
    assert_eq!(alternator_choice(5, 1, 3), (2, 3));
    assert_eq!(alternator_choice(5, 3, 2), (1, 6));
    let n = node_parser("arrange [ (0, 2): 0 (1, 3): 1 (4, 6): 2 ]").unwrap();
    match n {
        Node::Arrange(segs) => {
            assert_eq!(arrange_selection(&segs, 1), (1, vec![0, 1]));
            assert_eq!(arrange_selection(&segs, 9), (3, vec![]));
            assert_eq!(arrange_selection(&segs, 10), (4, vec![2]));
        }
        other => panic!("unexpected {:?}", other),
    }
}

#[test]
fn scale_selection() {
    let p = mmn_parser("#SCALE=C4 major\n#SCALE_SEQ={ (0, 2): D4 minor | (2, 4): E4 dorian }\nT1: 0\nT10: 0").unwrap();
    assert_eq!(global_scale(&p, 0).unwrap().root_pitch, 62);
    assert_eq!(global_scale(&p, 3).unwrap().root_pitch, 64);
    assert_eq!(global_scale(&p, 5).unwrap().root_pitch, 62);
    let g = global_scale(&p, 0);
    assert_eq!(track_scale(&p.tracks[0], &g).unwrap().root_pitch, 62);
    assert!(track_scale(&p.tracks[1], &g).is_none());
    let q = mmn_parser("#SCALE=C4 major\nT1: 0").unwrap();
    assert_eq!(global_scale(&q, 7).unwrap().root_pitch, 60);
}

#[test]
fn seeds_bump_with_their_interval() {
    let micro = SeedDef { base: 10, interval: Some(SeedInterval::Micro(4)) };
    assert_eq!(seed_for_cycle(&micro, 9, 0, 1), 12);
    let mac = SeedDef { base: 10, interval: Some(SeedInterval::Macro(2)) };
    assert_eq!(seed_for_cycle(&mac, 0, 5, 1), 12);
    let tr = SeedDef { base: u64::MAX, interval: Some(SeedInterval::Track(1)) };
    assert_eq!(seed_for_cycle(&tr, 6, 0, 3), 1);
    let plain = SeedDef { base: 7, interval: None };
    assert_eq!(seed_for_cycle(&plain, 100, 100, 1), 7);
    assert_eq!(macro_cycle_index(13, 4), 3);
    assert_eq!(macro_cycle_index(13, 0), 13);
}

#[test]
fn random_draws_respect_weights() {
    let mut rng = StdRng::seed_from_u64(42);
    for _ in 0..200 {
        let i = pick_branch(&vec![0, 3, 0, 1], &mut rng);
        assert!(i == 1 || i == 3);
    }
    for _ in 0..50 {
        let i = pick_branch(&vec![0, 0], &mut rng);
        assert!(i < 2);
    }
    let order = shuffled_order(6, &mut rng);
    let mut sorted = order.clone();
    sorted.sort();
    assert_eq!(sorted, vec![0, 1, 2, 3, 4, 5]);
    assert!(probability_passes(100, &mut rng));
    assert!(!probability_passes(0, &mut rng));
}

#[test]
fn alternator_moves_one_step_per_cycle() {
    let picks: Vec<usize> = (0..7).map(|c| alternator_choice(c, 1, 3).0).collect();
    assert_eq!(picks, vec![0, 1, 2, 0, 1, 2, 0]);
    // a nested alternator moves once per full turn of its parent
    let inner: Vec<usize> = (0..6).map(|c| alternator_choice(c, 3, 2).0).collect();
    assert_eq!(inner, vec![0, 0, 0, 1, 1, 1]);
}

#[test]
fn probability_decides_by_the_draw() {
    // a step at 80% plays on 80 of the 100 draws
    assert_eq!((0..100u8).filter(|r| step_plays(80, *r)).count(), 80);
    assert_eq!((0..100u8).filter(|r| step_plays(50, *r)).count(), 50);
    assert!(step_plays(50, 49));
    assert!(!step_plays(50, 50));
    assert!(step_plays(100, 99));
    assert!(!step_plays(0, 0));
}

#[test]
fn conditions_pick_cycles() {
    let plays: Vec<usize> = (0..9).filter(|c| condition_holds(CondScope::Cycle, 4, 0, *c, 1)).collect();
    assert_eq!(plays, vec![0, 4, 8]);
    // m_only(4, 3) in a 2-cycle pattern: the first cycle of macro-cycles 3, 7, ...
    let plays: Vec<usize> = (0..16).filter(|c| condition_holds(CondScope::MacroFirst, 4, 3, *c, 2)).collect();
    assert_eq!(plays, vec![6, 14]);
    let plays: Vec<usize> = (0..16).filter(|c| condition_holds(CondScope::Macro, 4, 3, *c, 2)).collect();
    assert_eq!(plays, vec![6, 7, 14, 15]);
    assert!(!condition_holds(CondScope::Cycle, 0, 0, 0, 1));
}

#[test]
fn silence_and_mutes_leave_tracks_out() {
    let p = mmn_parser("T1: 0\n!T2: 1\nT3: 2").unwrap();
    assert_eq!(tracks_to_render(&p), vec![0, 2]);
    let p = mmn_parser("#SILENCE\nT1: 0\nT2: 1").unwrap();
    assert!(p.global_silence);
    assert!(tracks_to_render(&p).is_empty());
}
