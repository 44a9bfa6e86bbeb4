use mid_text_converter::instruments::{InstrumentKind, Instruments, Track};
use mid_text_converter::note::{Note, NoteError};
use mid_text_converter::song::Song;

#[test]
fn test_song() {
    let mut song = Song::new();

    let mut track1 = Track::new();
    track1.push(Note::new(60, 0));
    track1.push(Note::new(62, 1));

    let mut track2 = Track::new();
    track2.push(Note::new(112, 2));
    track2.push(Note::new(125, 3));

    let instrument1 = Instruments::new(InstrumentKind::Flute, track1);
    let instrument2 = Instruments::new(InstrumentKind::Pling, track2);

    song.add_track(instrument1);
    song.add_track(instrument2);
    let result = song.to_text(true).unwrap();
    assert_eq!(result, "@G.@I.+W.+X");
}

#[test]
fn empty_song_is_empty_text() {
    let song = Song::default();
    assert_eq!(song.end, 0);
    assert_eq!(song.to_text(false).unwrap(), "");
}

#[test]
fn song_reports_first_invalid_key() {
    let mut song = Song::new();
    let mut a = Track::new();
    a.push(Note::new(100, 0));
    let mut b = Track::new();
    b.push(Note::new(10, 0));
    song.add_track(Instruments::new(InstrumentKind::Hat, a));
    song.add_track(Instruments::new(InstrumentKind::Snare, b));
    assert_eq!(song.to_text(false), Err(NoteError::InvalidKey(100)));
}
