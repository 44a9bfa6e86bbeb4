use mid_text_converter::instruments::{InstrumentError, InstrumentKind, Instruments, Track};
use mid_text_converter::note::{Note, NoteError};

fn track_of(notes: &[(u8, u32)]) -> Track {
    let mut track = Track::new();
    for &(key, start) in notes {
        track.push(Note::new(key, start));
    }
    track
}

#[test]
fn test_instrument_to_text() {
    let mut track = Track::new();
    track.0.push(Note::new(60, 0));
    track.0.push(Note::new(62, 1));
    track.0.push(Note::new(127, 2));

    let instrument = Instruments::new(InstrumentKind::Pling, track);
    let result = instrument.to_text(true).unwrap();
    assert_eq!(result, "G.I.+N");
}

#[test]
fn test_merge_instruments() {
    let mut track1 = Track::new();
    track1.0.push(Note::new(60, 0));
    track1.0.push(Note::new(62, 1));

    let mut track2 = Track::new();
    track2.0.push(Note::new(64, 2));
    track2.0.push(Note::new(113, 3));

    let mut instrument1 = Instruments::new(InstrumentKind::Pling, track1);
    let instrument2 = Instruments::new(InstrumentKind::Pling, track2);

    instrument1.merge(instrument2).unwrap();

    let result = instrument1.to_text(true).unwrap();
    assert_eq!(result, "G.I.K.+X");

    let mut track1 = Track::new();
    track1.0.push(Note::new(60, 0));
    track1.0.push(Note::new(62, 1));

    let mut track2 = Track::new();
    track2.0.push(Note::new(112, 2));
    track2.0.push(Note::new(125, 3));

    let mut instrument1 = Instruments::new(InstrumentKind::Pling, track1);
    let instrument2 = Instruments::new(InstrumentKind::Pling, track2);

    instrument1.merge(instrument2).unwrap();

    let result = instrument1.to_text(true).unwrap();
    assert_eq!(result, "G.I.+W.+X");
}

#[test]
fn test_merge_different_instruments() {
    let mut track1 = Track::new();
    track1.0.push(Note::new(60, 0));
    track1.0.push(Note::new(62, 1));

    let mut track2 = Track::new();
    track2.0.push(Note::new(64, 2));
    track2.0.push(Note::new(65, 3));

    let mut instrument1 = Instruments::new(InstrumentKind::Pling, track1);
    let instrument2 = Instruments::new(InstrumentKind::Hat, track2);

    assert!(instrument1.merge(instrument2).is_err());
}

#[test]
fn mismatched_merge_changes_nothing() {
    let mut pling = Instruments::new(InstrumentKind::Pling, track_of(&[(60, 0), (62, 1)]));
    let hat = Instruments::new(InstrumentKind::Hat, track_of(&[(64, 2), (65, 3)]));
    let before = pling.clone();
    assert_eq!(
        pling.merge(hat.clone()),
        Err(InstrumentError::MergeDifferentInstrumentTypes)
    );
    assert_eq!(pling, before);
    assert_eq!(pling.to_text(true).unwrap(), "G.I");
    assert_eq!(hat.to_text(true).unwrap(), "1!K.!L");
}

#[test]
fn interleaved_tracks_merge_in_order() {
    let mut a = track_of(&[(60, 0), (62, 4), (64, 8)]);
    let b = track_of(&[(65, 2), (67, 4), (69, 10)]);
    a.merge(b);
    let starts: Vec<u32> = a.0.iter().map(|n| n.start_timing).collect();
    assert_eq!(starts, vec![0, 2, 4, 4, 8, 10]);
    let keys: Vec<u8> = a.0.iter().map(|n| n.key).collect();
    // on tick 4 the note that was there first stays first
    assert_eq!(keys, vec![60, 65, 62, 67, 64, 69]);
    assert_eq!(a.len(), 6);
}

#[test]
fn key_mapping_band_and_fold() {
    assert_eq!(Note::key_to_char(54, false), Ok('A'));
    assert_eq!(Note::key_to_char(78, false), Ok('Y'));
    assert_eq!(Note::key_to_char(53, false), Err(NoteError::InvalidKey(53)));
    assert_eq!(Note::key_to_char(79, false), Err(NoteError::InvalidKey(79)));
    // folding moves by whole octaves into the band
    assert_eq!(Note::key_to_char(53, true), Ok('L'));
    assert_eq!(Note::key_to_char(79, true), Ok('N'));
    assert_eq!(Note::key_to_char(0, true), Ok('G'));
    assert_eq!(Note::key_to_char(127, true), Ok('N'));
    assert_eq!(Note::new(66, 0).to_char(false), Ok('M'));
}

#[test]
fn pling_shifts_without_fold() {
    let inst = Instruments::new(
        InstrumentKind::Pling,
        track_of(&[(78, 0), (102, 1), (54, 2), (30, 3), (66, 4)]),
    );
    assert_eq!(inst.to_text(false).unwrap(), "+A.+Y.-Y.-A.M");
    let out_of_reach = Instruments::new(InstrumentKind::Pling, track_of(&[(60, 0), (103, 1)]));
    assert_eq!(out_of_reach.to_text(false), Err(NoteError::InvalidKey(103)));
    let low = Instruments::new(InstrumentKind::Pling, track_of(&[(29, 0)]));
    assert_eq!(low.to_text(false), Err(NoteError::InvalidKey(29)));
    assert_eq!(low.to_text(true).unwrap(), "-L");
}

#[test]
fn prefixed_instruments() {
    let notes = [(60, 0), (62, 18)];
    let cases = [
        (InstrumentKind::Hat, "!G9!I"),
        (InstrumentKind::Snare, "?G9?I"),
        (InstrumentKind::BassDrum, "=G9=I"),
        (InstrumentKind::Bass, "\\G9\\I"),
        (InstrumentKind::Bell, "/G9/I"),
        (InstrumentKind::Chime, "_G9_I"),
        (InstrumentKind::Flute, "@G9@I"),
        (InstrumentKind::Guitar, ":G9:I"),
        (InstrumentKind::Harp, ";G9;I"),
        (InstrumentKind::Xylophone, ",G9,I"),
    ];
    for (kind, text) in cases {
        let inst = Instruments::new(kind, track_of(&notes));
        assert_eq!(inst.kind(), kind);
        assert_eq!(inst.to_text(false).unwrap(), text);
    }
}

#[test]
fn prefixed_out_of_band_key() {
    let inst = Instruments::new(InstrumentKind::Hat, track_of(&[(60, 0), (90, 1)]));
    assert_eq!(inst.to_text(false), Err(NoteError::InvalidKey(90)));
    assert_eq!(inst.to_text(true).unwrap(), "!G.!Y");
}

#[test]
fn track_to_string_with_and_without_prefix() {
    let track = track_of(&[(54, 0), (55, 2), (56, 21)]);
    assert_eq!(Instruments::track_to_string(&track, None, false).unwrap(), "A1B9.C");
    assert_eq!(Instruments::track_to_string(&track, Some("xy"), false).unwrap(), "xyA1xyB9.xyC");
    assert_eq!(Instruments::track_to_string(&Track::new(), Some("!"), false).unwrap(), "");
}
