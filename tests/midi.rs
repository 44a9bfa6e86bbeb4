use mid_text_converter::instruments::Track;
use mid_text_converter::midi::{check_timing, fits, mid_bytes_to_track, EventKind, MidiError, MidiEvent};
use mid_text_converter::note::Note;

fn smf(track_bodies: &[Vec<u8>]) -> Vec<u8> {
    let mut out = b"MThd".to_vec();
    out.extend_from_slice(&[0, 0, 0, 6, 0, 1, 0, track_bodies.len() as u8, 0, 96]);
    for body in track_bodies {
        out.extend_from_slice(b"MTrk");
        let mut b = body.clone();
        b.extend_from_slice(&[0, 0xFF, 0x2F, 0]);
        out.extend_from_slice(&(b.len() as u32).to_be_bytes());
        out.extend_from_slice(&b);
    }
    out
}

fn down(delta: u32, key: u8) -> MidiEvent {
    MidiEvent { delta, kind: EventKind::KeyDown(key) }
}

fn up(delta: u32, key: u8) -> MidiEvent {
    MidiEvent { delta, kind: EventKind::KeyUp(key) }
}

fn notes(t: &Track) -> Vec<(u8, u32)> {
    t.0.iter().map(|n| (n.key, n.start_timing)).collect()
}

#[test]
fn one_octave_from_bytes() {
    let mut body = Vec::new();
    for key in [60u8, 62, 64, 65, 67, 69, 71, 72] {
        body.extend_from_slice(&[0, 0x90, key, 100, 0x60, 0x80, key, 0]);
    }
    let track = mid_bytes_to_track(&smf(&[body])).unwrap();

    let mut expected = Track::new();
    expected.push(Note::new(60, 0));
    expected.push(Note::new(62, 8));
    expected.push(Note::new(64, 16));
    expected.push(Note::new(65, 24));
    expected.push(Note::new(67, 32));
    expected.push(Note::new(69, 40));
    expected.push(Note::new(71, 48));
    expected.push(Note::new(72, 56));

    assert_eq!(track.len(), 8);
    assert_eq!(track, expected);
}

#[test]
fn bytes_that_are_no_midi_file() {
    assert!(matches!(mid_bytes_to_track(b"not a midi file"), Err(MidiError::Parse(_))));
}

#[test]
fn other_events_are_dropped_with_their_delta() {
    // a controller change between the two notes: its delta is not counted
    let body = vec![0, 0x90, 60, 100, 24, 0x80, 60, 0, 100, 0xB0, 7, 100, 24, 0x90, 62, 100, 24, 0x80, 62, 0];
    let track = mid_bytes_to_track(&smf(&[body])).unwrap();
    assert_eq!(notes(&track), vec![(60, 0), (62, 4)]);
}

#[test]
fn key_down_takes_first_free_key_up() {
    // two overlapping key-downs of one key, then both key-ups
    let t = vec![down(0, 60), down(24, 60), up(24, 60), up(24, 60)];
    assert_eq!(notes(&Track::midi_to_notes(&vec![t])), vec![(60, 0), (60, 2)]);
    // only one key-up: the first key-down takes it, the second gives no note
    let t = vec![down(0, 60), down(24, 60), up(24, 60)];
    assert_eq!(notes(&Track::midi_to_notes(&vec![t])), vec![(60, 0)]);
    // a key-up before the key-down is still in the pool and is taken
    let t = vec![up(0, 60), down(12, 60)];
    assert_eq!(notes(&Track::midi_to_notes(&vec![t])), vec![(60, 1)]);
    // a key-down with no key-up of its key gives nothing
    let t = vec![down(0, 61), up(12, 60)];
    assert!(Track::midi_to_notes(&vec![t]).is_empty());
}

#[test]
fn tracks_are_merged_stably() {
    let a = vec![down(0, 60), up(12, 60), down(12, 62), up(12, 62)];
    let b = vec![down(24, 64), up(12, 64)];
    let empty = vec![MidiEvent { delta: 5, kind: EventKind::Other }];
    let t = Track::midi_to_notes(&vec![a, empty, b]);
    assert_eq!(notes(&t), vec![(60, 0), (62, 2), (64, 2)]);
}

#[test]
fn range_check_of_events() {
    assert!(fits(&vec![down(u32::MAX, 60), up(0, 60)]));
    assert!(!fits(&vec![down(u32::MAX, 60), up(1, 60)]));
    assert!(fits(&vec![MidiEvent { delta: u32::MAX, kind: EventKind::Other }, down(u32::MAX, 60)]));
    assert!(!fits(&vec![down(0, 128)]));
}

#[test]
fn timing_high_byte_0x80_is_refused() {
    let header = [b'M', b'T', b'h', b'd', 0, 0, 0, 6, 0, 0, 0, 1, 0x80, 0x00];
    assert!(!check_timing(&header));
    assert!(matches!(mid_bytes_to_track(&header), Err(MidiError::UnsupportedTiming)));
}

#[test]
fn timing_check_on_other_bytes() {
    assert!(check_timing(b""));
    assert!(check_timing(b"MThd"));
    // a timecode header with 25 frames per second is read by midly
    let header = [b'M', b'T', b'h', b'd', 0, 0, 0, 6, 0, 0, 0, 0, 0xE7, 0x28];
    assert!(check_timing(&header));
    assert!(matches!(mid_bytes_to_track(&header), Ok(_) | Err(MidiError::Parse(_))));
    // 0x80 twelve bytes after something that is no header id is fine
    assert!(check_timing(&[b'M', b'T', b'r', b'k', 0, 0, 0, 0, 0, 0, 0, 0, 0x80]));
    let mut body = Vec::new();
    body.extend_from_slice(&[0, 0x90, 60, 100, 0x60, 0x80, 60, 0]);
    assert!(check_timing(&smf(&[body])));
}
