use cycle_midi::import_grid::{grid_steps, snap_grid, grid_text, held_through, sort_step_notes, step_cell};
use cycle_midi::midi_file::{read_midi_notes, MidiReadError, NoteSpan};
use cycle_midi::midi_import::{format_degree, format_degree_checked, get_scale_intervals, parse_root_pitch, parse_root_pitch_checked};

fn chars(s: &str) -> Vec<char> {
    s.chars().collect()
}

#[test]
fn scale_intervals_by_name() {
    assert_eq!(get_scale_intervals("minor"), vec![0, 2, 3, 5, 7, 8, 10]);
    assert_eq!(get_scale_intervals("Dorian"), vec![0, 2, 3, 5, 7, 9, 10]);
    assert_eq!(get_scale_intervals("MINOR_PENTATONIC"), vec![0, 3, 5, 7, 10]);
    assert_eq!(get_scale_intervals("whatever"), vec![0, 2, 4, 5, 7, 9, 11]);
}

#[test]
fn root_pitches() {
    assert_eq!(parse_root_pitch("C4"), 60);
    assert_eq!(parse_root_pitch("  eb3 "), 51);
    assert_eq!(parse_root_pitch("A#"), 70);
    assert_eq!(parse_root_pitch("C-1"), 0);
    assert_eq!(parse_root_pitch("X9"), 120);
    assert_eq!(parse_root_pitch("Gx"), 60);
    assert_eq!(parse_root_pitch_checked("C2147483646"), None);
}

#[test]
fn degrees() {
    let major = vec![0, 2, 4, 5, 7, 9, 11];
    assert_eq!(format_degree(60, 60, &major, 100, false), "0");
    assert_eq!(format_degree(64, 60, &major, 100, false), "2");
    assert_eq!(format_degree(61, 60, &major, 100, false), "0#");
    assert_eq!(format_degree(72, 60, &major, 100, false), "7");
    assert_eq!(format_degree(59, 60, &major, 100, false), "-1");
    assert_eq!(format_degree(58, 60, &major, 100, false), "-2#");
    assert_eq!(format_degree(67, 60, &major, 90, true), "4.v(90)");
}

#[test]
fn step_cells() {
    let notes = vec![(20, chars("2")), (0, chars("0")), (5, chars("4")), (40, chars("7"))];
    let sorted = sort_step_notes(notes.clone());
    assert_eq!(sorted.iter().map(|n| n.0).collect::<Vec<_>>(), vec![0, 5, 20, 40]);
    let c = |v: Vec<char>| v.into_iter().collect::<String>();
    assert_eq!(c(step_cell(notes.clone(), true, true)), "[par(0, 4) 2 7]");
    assert_eq!(c(step_cell(notes.clone(), true, false)), "par(0, 4, 2, 7)");
    assert_eq!(c(step_cell(notes.clone(), false, true)), "[0 4 2 7]");
    assert_eq!(c(step_cell(notes.clone(), false, false)), "0");
    assert_eq!(c(step_cell(vec![(3, chars("5"))], true, true)), "5");
}

#[test]
fn grid_formats() {
    let grid: Vec<Vec<char>> = ["0", ".", "0", ".", "1", "_"].iter().map(|s| chars(s)).collect();
    assert_eq!(grid_text(&grid, "raw", 2), "[ 0 . 0 . 1 _ ]");
    assert_eq!(grid_text(&grid, "arrange", 2), "arrange [ (0, 1): [0 .], (1, 2): [0 .], (2, 3): [1 _] ]");
    assert_eq!(grid_text(&grid, "chain", 2), "chain [ 2: [0 .], 1: [1 _] ]");
    assert_eq!(grid_text(&grid, "chain", 4), "chain [ 1: [0 . 0 .], 1: [1 _] ]");
}

#[test]
fn holding_steps() {
    let spans = vec![(0, 3), (4, 5)];
    assert!(held_through(&spans, 1));
    assert!(!held_through(&spans, 3));
    assert!(!held_through(&spans, 4));
}

fn small_file() -> Vec<u8> {
    let mut track = vec![
        0x00, 0x90, 60, 100, // note on
        0x83, 0x60, 0x80, 60, 0, // 480 ticks later, note off
        0x00, 0x90, 64, 90, // note on
        0x81, 0x70, 0x90, 64, 0, // 240 later, note on with velocity 0
        0x00, 0xFF, 0x2F, 0x00, // end of track
    ];
    let mut data = vec![b'M', b'T', b'h', b'd', 0, 0, 0, 6, 0, 0, 0, 1, 0x01, 0xE0];
    data.extend_from_slice(&[b'M', b'T', b'r', b'k', 0, 0, 0, track.len() as u8]);
    data.append(&mut track);
    data
}

#[test]
fn reads_notes_of_a_file() {
    let data = small_file();
    let (ticks, notes) = read_midi_notes(&data).unwrap();
    assert_eq!(ticks, 480);
    assert_eq!(
        notes,
        vec![
            NoteSpan { start_tick: 0, end_tick: 480, key: 60, velocity: 100 },
            NoteSpan { start_tick: 480, end_tick: 720, key: 64, velocity: 90 },
        ]
    );
    assert_eq!(read_midi_notes(&[1, 2, 3]), Err(MidiReadError::Malformed));
}

#[test]
fn timecode_files_are_refused() {
    let mut data = small_file();
    data[12] = 0xE7;
    data[13] = 0x28;
    assert_eq!(read_midi_notes(&data), Err(MidiReadError::Timecode));
}

#[test]
fn degrees_that_cannot_be_written() {
    let major = get_scale_intervals("major");
    assert_eq!(format_degree_checked(64, 60, &major, 100, false), Some("2".to_string()));
    assert_eq!(format_degree_checked(64, 60, &vec![], 100, false), None);
    // below every interval of the scale: no sharps can reach it
    assert_eq!(format_degree_checked(60, 60, &vec![2, 4], 100, false), None);
    assert_eq!(format_degree_checked(i32::MAX, i32::MIN, &major, 100, false), None);
}

#[test]
fn snapped_grid_layout() {
    let spans = vec![(0, 2), (2, 3), (2, 3)];
    let notes = vec![(0u64, chars("0")), (480, chars("2")), (481, chars("4"))];
    let text = |cells: Vec<Vec<char>>| -> Vec<String> { cells.iter().map(|c| c.iter().collect()).collect() };
    let plain = snap_grid(&spans, &notes, 4, false, false).unwrap();
    assert_eq!(text(plain), vec!["0", "_", "2", "."]);
    let split = snap_grid(&spans, &notes, 4, false, true).unwrap();
    assert_eq!(text(split), vec!["0", "_", "[2 4]", "."]);
    let empty = snap_grid(&vec![], &vec![], 3, false, false).unwrap();
    assert_eq!(text(empty), vec![".", ".", "."]);
}

#[test]
fn grid_steps_round_up_to_rows() {
    assert_eq!(grid_steps(0, 4), Some(4));
    assert_eq!(grid_steps(5, 4), Some(8));
    assert_eq!(grid_steps(8, 4), Some(8));
    assert_eq!(grid_steps(usize::MAX, 4), None);
}

#[test]
fn import_and_directive_scales_agree() {
    for name in ["major", "minor", "minor_pentatonic", "dorian", "phrygian", "lydian", "mixolydian", "locrian", "pentatonic", "chromatic"] {
        let p = cycle_midi::parser::program::mmn_parser(&format!("#SCALE=C4 {}\nT1: 0", name)).unwrap();
        let directive: Vec<i32> = p.scale.unwrap().intervals.iter().map(|x| *x as i32).collect();
        let import = get_scale_intervals(&name.to_uppercase());
        assert_eq!(import, directive);
        assert_eq!(import[0], 0);
        assert!(import.windows(2).all(|w| w[0] < w[1]) && import.iter().all(|x| *x < 12));
    }
}

#[test]
fn written_degrees_resolve_back() {
    use_resolve_round_trip();
}

fn use_resolve_round_trip() {
    let minor: Vec<i32> = get_scale_intervals("minor");
    let scale = Some(cycle_midi::ast::ScaleDef { root_pitch: 57, intervals: minor.iter().map(|x| *x as u8).collect() });
    for m in 0..128i32 {
        if minor.contains(&(m - 57).rem_euclid(12)) {
            let d: i32 = format_degree(m, 57, &minor, 100, false).parse().unwrap();
            let back = cycle_midi::math::resolve_pitch(&cycle_midi::ast::Pitch::Numeric(d, 0), &scale, 0);
            assert_eq!(back as i32, m);
        }
    }
}

#[test]
fn root_names_read_as_pattern_pitches() {
    for name in ["C4", "F#3", "Bb2", "G#0", "Db5", "G9"] {
        let expected = cycle_midi::parser::primitives::pitch_val(&chars(name), 0);
        assert_eq!(expected, Some((parse_root_pitch(name) as u8, name.len())));
    }
    assert_eq!(parse_root_pitch("F#3"), 54);
    assert_eq!(parse_root_pitch("Bb"), parse_root_pitch("Bb4"));
    assert_eq!(parse_root_pitch("E"), 64);
}
