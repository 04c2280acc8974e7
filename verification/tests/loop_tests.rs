use cycle_midi::scheduler::start_note;
use cycle_midi::ast::QuantizeMode;
use cycle_midi::config::{default_quantize, home_relative};
use cycle_midi::scheduler::{
    control_change_message, note_off_message, note_on_message, phrase_length, staged_action, StagedAction,
};

#[test]
fn phrase_lengths() {
    assert_eq!(phrase_length(Some(QuantizeMode::Fixed(8)), QuantizeMode::Fixed(1), 6, 16), 8);
    assert_eq!(phrase_length(None, QuantizeMode::Auto, 6, 16), 6);
    assert_eq!(phrase_length(Some(QuantizeMode::Auto), QuantizeMode::Fixed(1), 64, 16), 16);
}

#[test]
fn staged_programs_wait_for_phrase_start() {
    assert_eq!(staged_action(None, 4, 3), StagedAction::Nothing);
    assert_eq!(staged_action(Some(false), 4, 8), StagedAction::Swap { hot_reload: false });
    assert_eq!(
        staged_action(Some(true), 4, 9),
        StagedAction::Wait { hot_reload: true, cycles_left: 3, phrase: 4 }
    );
}

#[test]
fn midi_messages() {
    assert_eq!(note_on_message(2, 60, 100), vec![0x92, 60, 100]);
    assert_eq!(note_off_message(9, 36), vec![0x89, 36, 0]);
    assert_eq!(control_change_message(0, 11, 127), vec![0xB0, 11, 127]);
}

#[test]
fn config_values() {
    assert_eq!(default_quantize(&None), (QuantizeMode::Fixed(1), false));
    assert_eq!(default_quantize(&Some("auto".to_string())), (QuantizeMode::Auto, false));
    assert_eq!(default_quantize(&Some("AUTO".to_string())), (QuantizeMode::Auto, false));
    assert_eq!(default_quantize(&Some("+12".to_string())), (QuantizeMode::Fixed(12), false));
    assert_eq!(default_quantize(&Some("Auto".to_string())), (QuantizeMode::Fixed(1), true));
    assert_eq!(default_quantize(&Some("".to_string())), (QuantizeMode::Fixed(1), true));
    assert_eq!(home_relative("~/music"), Some("music".to_string()));
    assert_eq!(home_relative("/abs/~/x"), None);
}

#[test]
fn a_key_struck_again_stops_its_note() {
    let mut active: Vec<(u8, u8, u32)> = Vec::new();
    assert!(start_note(&mut active, 0, 60, 10).is_empty());
    assert!(start_note(&mut active, 1, 60, 12).is_empty());
    let stopped = start_note(&mut active, 0, 60, 20);
    assert_eq!(stopped, vec![(0, 60, 10)]);
    assert_eq!(active, vec![(1, 60, 12), (0, 60, 20)]);
}
