use vstd::prelude::*;
use crate::instruments::{Track, valid_track};
use crate::note::Note;
use crate::order::sort_by_tick;
use midly::{MidiMessage as M, TrackEventKind as K};

verus! {

/// What a MIDI event does, as far as notes go.
#[derive(Clone, Copy, Debug, PartialEq, Eq)]
pub enum EventKind {
    KeyDown(u8),
    KeyUp(u8),
    Other,
}

/// A MIDI event of a track: the ticks since the event before it, and what it does.
#[derive(Clone, Copy, Debug, PartialEq, Eq)]
pub struct MidiEvent {
    pub delta: u32,
    pub kind: EventKind,
}

/// The key-down and key-up events of `s`, in order.
pub open spec fn key_events(s: Seq<MidiEvent>) -> Seq<MidiEvent>
    decreases s.len(),
{
    if s.len() == 0 {
        Seq::empty()
    } else if s.last().kind is Other {
        key_events(s.drop_last())
    } else {
        key_events(s.drop_last()).push(s.last())
    }
}

/// The ticks from the start of `s` to its last event.
pub open spec fn elapsed(s: Seq<MidiEvent>) -> nat
    decreases s.len(),
{
    if s.len() == 0 {
        0
    } else {
        elapsed(s.drop_last()) + s.last().delta as nat
    }
}

/// How many events of `s` are `kind`.
pub open spec fn count_kind(s: Seq<MidiEvent>, kind: EventKind) -> nat
    decreases s.len(),
{
    if s.len() == 0 {
        0
    } else {
        count_kind(s.drop_last(), kind) + if s.last().kind == kind {
            1nat
        } else {
            0nat
        }
    }
}

/// The notes of the first `n` events of `s`. A key-down takes the first key-up of its key that
/// no earlier key-down took, wherever in `s` that stands, and gives a note at its own tick,
/// quantized to twelfths; with none left it gives no note. Since a note keeps only its
/// start, which key-up it takes does not show.
pub open spec fn paired_notes(s: Seq<MidiEvent>, n: int) -> Seq<Note>
    decreases n,
{
    if n <= 0 {
        Seq::empty()
    } else {
        let prev = paired_notes(s, n - 1);
        match s[n - 1].kind {
            EventKind::KeyDown(k) => if count_kind(s.take(n - 1), EventKind::KeyDown(k))
                < count_kind(s, EventKind::KeyUp(k)) {
                prev.push(Note { key: k, start_timing: (elapsed(s.take(n)) / 12) as u32 })
            } else {
                prev
            },
            _ => prev,
        }
    }
}

/// The notes of one track of a MIDI file.
pub open spec fn sub_track_notes(t: Seq<MidiEvent>) -> Seq<Note> {
    paired_notes(key_events(t), key_events(t).len() as int)
}

/// The notes of all `tracks`: those of each track in turn added to the ones before and sorted
/// stably by start; a track with no notes changes nothing.
pub open spec fn extract(tracks: Seq<Seq<MidiEvent>>) -> Seq<Note>
    decreases tracks.len(),
{
    if tracks.len() == 0 {
        Seq::empty()
    } else {
        let acc = extract(tracks.drop_last());
        let ns = sub_track_notes(tracks.last());
        if ns.len() == 0 {
            acc
        } else {
            sort_by_tick(acc + ns)
        }
    }
}

/// Every key of `t` is a MIDI key, and the time of its key events fits 32 bits.
pub open spec fn fits_track(t: Seq<MidiEvent>) -> bool {
    &&& elapsed(key_events(t)) <= u32::MAX
    &&& forall|i: int|
        0 <= i < t.len() ==> match (#[trigger] t[i]).kind {
            EventKind::KeyDown(k) => k <= 127,
            EventKind::KeyUp(k) => k <= 127,
            EventKind::Other => true,
        }
}

/// The events of each track.
pub open spec fn event_views(v: Seq<Vec<MidiEvent>>) -> Seq<Seq<MidiEvent>> {
    v.map_values(|t: Vec<MidiEvent>| t@)
}

proof fn lemma_elapsed_prefix(s: Seq<MidiEvent>, j: int)
    requires
        0 <= j <= s.len(),
    ensures
        elapsed(s.take(j)) <= elapsed(s),
    decreases s.len() - j,
{
    if j < s.len() {
        let p = s.drop_last();
        assert(p.take(j) =~= s.take(j));
        lemma_elapsed_prefix(p, j);
    } else {
        assert(s.take(j) =~= s);
    }
}

proof fn lemma_count_bound(s: Seq<MidiEvent>, kind: EventKind)
    ensures
        count_kind(s, kind) <= s.len(),
    decreases s.len(),
{
    if s.len() > 0 {
        lemma_count_bound(s.drop_last(), kind);
    }
}

proof fn lemma_key_events(s: Seq<MidiEvent>)
    ensures
        forall|i: int| 0 <= i < key_events(s).len() ==> s.contains(#[trigger] key_events(s)[i]),
        forall|i: int| 0 <= i < key_events(s).len() ==> !((#[trigger] key_events(s)[i]).kind is Other),
    decreases s.len(),
{
    if s.len() > 0 {
        lemma_key_events(s.drop_last());
        let p = s.drop_last();
        assert forall|i: int| 0 <= i < key_events(p).len() implies s.contains(
            #[trigger] key_events(p)[i],
        ) by {
            let m = choose|m: int| 0 <= m < p.len() && p[m] == key_events(p)[i];
            assert(s[m] == p[m]);
        }
        assert(s[s.len() - 1] == s.last());
    }
}

/// The key events of `t`, in order.
fn keep_key_events(t: &Vec<MidiEvent>) -> (r: Vec<MidiEvent>)
    ensures
        r@ == key_events(t@),
{
    let mut r: Vec<MidiEvent> = Vec::new();
    let n = t.len();
    let mut j: usize = 0;
    while j < n
        invariant
            n == t@.len(),
            j <= n,
            r@ == key_events(t@.take(j as int)),
        decreases n - j,
    {
        let e = t[j];
        proof {
            assert(t@.take(j as int + 1).drop_last() =~= t@.take(j as int));
        }
        match e.kind {
            EventKind::Other => {},
            _ => {
                r.push(e);
            },
        }
        j += 1;
    }
    proof {
        assert(t@.take(n as int) =~= t@);
    }
    r
}

/// The notes of the key events `s`; see `paired_notes`.
fn pair_notes(s: &Vec<MidiEvent>) -> (r: Vec<Note>)
    requires
        elapsed(s@) <= u32::MAX,
        forall|i: int|
            0 <= i < s@.len() ==> match (#[trigger] s@[i]).kind {
                EventKind::KeyDown(k) => k <= 127,
                EventKind::KeyUp(k) => k <= 127,
                EventKind::Other => true,
            },
    ensures
        r@ == paired_notes(s@, s@.len() as int),
        valid_track(r@),
{
    let n = s.len();
    let mut ups: Vec<usize> = vec![0usize; 128];
    let mut j: usize = 0;
    while j < n
        invariant
            n == s@.len(),
            j <= n,
            ups@.len() == 128,
            forall|k: int|
                0 <= k < 128 ==> #[trigger] ups@[k] == count_kind(
                    s@.take(j as int),
                    EventKind::KeyUp(k as u8),
                ),
            forall|i: int|
                0 <= i < s@.len() ==> match (#[trigger] s@[i]).kind {
                    EventKind::KeyDown(k) => k <= 127,
                    EventKind::KeyUp(k) => k <= 127,
                    EventKind::Other => true,
                },
        decreases n - j,
    {
        let e = s[j];
        proof {
            assert(s@.take(j as int + 1).drop_last() =~= s@.take(j as int));
            lemma_count_bound(s@.take(j as int), e.kind);
        }
        if let EventKind::KeyUp(k) = e.kind {
            let c = ups[k as usize];
            ups.set(k as usize, c + 1);
        }
        j += 1;
    }
    proof {
        assert(s@.take(n as int) =~= s@);
    }
    let mut notes: Vec<Note> = Vec::new();
    let mut current: u32 = 0;
    let mut j: usize = 0;
    while j < n
        invariant
            n == s@.len(),
            j <= n,
            ups@.len() == 128,
            elapsed(s@) <= u32::MAX,
            forall|k: int|
                0 <= k < 128 ==> #[trigger] ups@[k] == (if count_kind(
                    s@.take(j as int),
                    EventKind::KeyDown(k as u8),
                ) < count_kind(s@, EventKind::KeyUp(k as u8)) {
                    count_kind(s@, EventKind::KeyUp(k as u8)) - count_kind(
                        s@.take(j as int),
                        EventKind::KeyDown(k as u8),
                    )
                } else {
                    0
                }),
            forall|i: int|
                0 <= i < s@.len() ==> match (#[trigger] s@[i]).kind {
                    EventKind::KeyDown(k) => k <= 127,
                    EventKind::KeyUp(k) => k <= 127,
                    EventKind::Other => true,
                },
            current as int == elapsed(s@.take(j as int)),
            notes@ == paired_notes(s@, j as int),
            valid_track(notes@),
            forall|i: int|
                0 <= i < notes@.len() ==> (#[trigger] notes@[i]).start_timing <= current / 12,
        decreases n - j,
    {
        let e = s[j];
        proof {
            assert(s@.take(j as int + 1).drop_last() =~= s@.take(j as int));
            assert(s@.take(j as int + 1).last() == e);
            lemma_elapsed_prefix(s@, j as int + 1);
        }
        current = current + e.delta;
        if let EventKind::KeyDown(k) = e.kind {
            let c = ups[k as usize];
            if c > 0 {
                ups.set(k as usize, c - 1);
                let note = Note::new(k, current / 12);
                notes.push(note);
            }
        }
        j += 1;
    }
    notes
}

proof fn lemma_key_elapsed_prefix(t: Seq<MidiEvent>, j: int)
    requires
        0 <= j <= t.len(),
    ensures
        elapsed(key_events(t.take(j))) <= elapsed(key_events(t)),
    decreases t.len() - j,
{
    if j < t.len() {
        let p = t.drop_last();
        assert(p.take(j) =~= t.take(j));
        lemma_key_elapsed_prefix(p, j);
        if !(t.last().kind is Other) {
            assert(key_events(t).drop_last() =~= key_events(p));
        }
    } else {
        assert(t.take(j) =~= t);
    }
}

/// Whether `t` meets `fits_track`.
pub fn fits(t: &Vec<MidiEvent>) -> (r: bool)
    ensures
        r == fits_track(t@),
{
    let n = t.len();
    let mut time: u64 = 0;
    let mut j: usize = 0;
    while j < n
        invariant
            n == t@.len(),
            j <= n,
            time == elapsed(key_events(t@.take(j as int))),
            time <= u32::MAX,
            forall|i: int|
                0 <= i < j ==> match (#[trigger] t@[i]).kind {
                    EventKind::KeyDown(k) => k <= 127,
                    EventKind::KeyUp(k) => k <= 127,
                    EventKind::Other => true,
                },
        decreases n - j,
    {
        let e = t[j];
        let ghost tj = t@.take(j as int + 1);
        proof {
            assert(tj.drop_last() =~= t@.take(j as int));
            assert(tj.last() == e);
            lemma_key_elapsed_prefix(t@, j as int + 1);
            if !(e.kind is Other) {
                assert(key_events(tj).drop_last() =~= key_events(t@.take(j as int)));
            }
        }
        match e.kind {
            EventKind::KeyDown(k) | EventKind::KeyUp(k) => {
                if k > 127 {
                    proof {
                        assert(!(match t@[j as int].kind {
                            EventKind::KeyDown(k) => k <= 127,
                            EventKind::KeyUp(k) => k <= 127,
                            EventKind::Other => true,
                        }));
                    }
                    return false;
                }
                time = time + e.delta as u64;
                if time > u32::MAX as u64 {
                    return false;
                }
            },
            EventKind::Other => {},
        }
        j += 1;
    }
    proof {
        assert(t@.take(n as int) =~= t@);
    }
    true
}

impl Track {
    /// The notes of the tracks of a MIDI file; see `extract`.
    pub fn midi_to_notes(tracks: &Vec<Vec<MidiEvent>>) -> (r: Track)
        requires
            forall|i: int| 0 <= i < tracks@.len() ==> fits_track(#[trigger] tracks@[i]@),
        ensures
            r@ == extract(event_views(tracks@)),
            r.wf(),
    {
        let mut notes = Track::new();
        let n = tracks.len();
        let mut i: usize = 0;
        while i < n
            invariant
                n == tracks@.len(),
                i <= n,
                forall|i: int| 0 <= i < tracks@.len() ==> fits_track(#[trigger] tracks@[i]@),
                notes@ == extract(event_views(tracks@).take(i as int)),
                notes.wf(),
            decreases n - i,
        {
            proof {
                let v = event_views(tracks@);
                assert(v.take(i as int + 1).drop_last() =~= v.take(i as int));
                assert(v.take(i as int + 1).last() == tracks@[i as int]@);
                lemma_key_events(tracks@[i as int]@);
                assert(fits_track(tracks@[i as int]@));
            }
            let events = keep_key_events(&tracks[i]);
            proof {
                assert forall|j: int| 0 <= j < events@.len() implies match (
                #[trigger] events@[j]).kind {
                    EventKind::KeyDown(k) => k <= 127,
                    EventKind::KeyUp(k) => k <= 127,
                    EventKind::Other => true,
                } by {
                    let m = choose|m: int|
                        0 <= m < tracks@[i as int]@.len() && tracks@[i as int]@[m] == events@[j];
                    assert(fits_track(tracks@[i as int]@));
                }
            }
            let t = pair_notes(&events);
            if t.len() > 0 {
                notes.merge(Track(t));
            }
            i += 1;
        }
        proof {
            assert(event_views(tracks@).take(n as int) =~= event_views(tracks@));
        }
        notes
    }
}

#[verifier::external_type_specification]
#[verifier::external_body]
pub struct ExMidlyError(midly::Error);

/// The tracks of events that the bytes `data` of a MIDI file hold, if they are one.
pub uninterp spec fn smf_tracks(data: Seq<u8>) -> Option<Seq<Seq<MidiEvent>>>;

/// Whether a header chunk id `MThd` starts at position `i` of `data`.
pub open spec fn header_at(data: Seq<u8>, i: int) -> bool {
    &&& 0 <= i
    &&& i + 3 < data.len()
    &&& data[i] == 0x4d
    &&& data[i + 1] == 0x54
    &&& data[i + 2] == 0x68
    &&& data[i + 3] == 0x64
}

/// Whether no header chunk in `data` has 0x80 as the high byte of its timing word, which sits
/// 12 bytes after the chunk id. midly reads that byte as the negated frame rate of a timecode,
/// and negating -128 overflows.
pub open spec fn timing_safe(data: Seq<u8>) -> bool {
    forall|i: int| #[trigger] header_at(data, i) && i + 12 < data.len() ==> data[i + 12] != 0x80
}

/// Whether `data` meets `timing_safe`.
pub fn check_timing(data: &[u8]) -> (r: bool)
    ensures
        r == timing_safe(data@),
{
    let n = data.len();
    let mut i: usize = 0;
    while n > 12 && i < n - 12
        invariant
            n == data@.len(),
            forall|j: int|
                0 <= j < i && #[trigger] header_at(data@, j) && j + 12 < data@.len() ==> data@[j
                    + 12] != 0x80,
        decreases n - i,
    {
        if data[i] == 0x4d && data[i + 1] == 0x54 && data[i + 2] == 0x68 && data[i + 3] == 0x64
            && data[i + 12] == 0x80 {
            proof {
                assert(header_at(data@, i as int));
            }
            return false;
        }
        i += 1;
    }
    true
}

/// Relies on midly::Smf::parse: it reads a Standard MIDI File, or fails with midly's error. Each
/// event is taken over with its delta; a note-on is a key-down, a note-off a key-up. The
/// precondition leaves out the headers on which midly's timing reader overflows.
#[verifier::external_body]
fn parse_smf(data: &[u8]) -> (r: Result<Vec<Vec<MidiEvent>>, midly::Error>)
    requires
        timing_safe(data@),
    ensures
        r is Ok <==> smf_tracks(data@) is Some,
        r matches Ok(v) ==> event_views(v@) == smf_tracks(data@)->0,
{
    let smf = midly::Smf::parse(data)?;
    Ok(smf.tracks.iter().map(|t| t.iter().map(|e| MidiEvent {
        delta: e.delta.as_int(),
        kind: match e.kind {
            K::Midi { message: M::NoteOn { key, .. }, .. } => EventKind::KeyDown(key.as_int()),
            K::Midi { message: M::NoteOff { key, .. }, .. } => EventKind::KeyUp(key.as_int()),
            _ => EventKind::Other,
        },
    }).collect()).collect())
}

/// Why the bytes of a MIDI file give no track.
#[derive(Debug)]
pub enum MidiError {
    /// midly could not read the file.
    Parse(midly::Error),
    /// A track's key events take more ticks than 32 bits hold, or a key is not a MIDI key.
    OutOfRange,
    /// A header's timing word has the high byte 0x80, which midly cannot read; see
    /// `timing_safe`.
    UnsupportedTiming,
}

/// The notes of the MIDI file `data`; see `extract`.
pub fn mid_bytes_to_track(data: &[u8]) -> (r: Result<Track, MidiError>)
    ensures
        !timing_safe(data@) ==> r matches Err(MidiError::UnsupportedTiming),
        timing_safe(data@) ==> match smf_tracks(data@) {
            None => r matches Err(MidiError::Parse(_)),
            Some(ts) => if forall|i: int| 0 <= i < ts.len() ==> fits_track(#[trigger] ts[i]) {
                r matches Ok(t) && t@ == extract(ts) && t.wf()
            } else {
                r matches Err(MidiError::OutOfRange)
            },
        },
{
    if !check_timing(data) {
        return Err(MidiError::UnsupportedTiming);
    }
    match parse_smf(data) {
        Err(e) => Err(MidiError::Parse(e)),
        Ok(tracks) => {
            let n = tracks.len();
            let mut i: usize = 0;
            while i < n
                invariant
                    n == tracks@.len(),
                    i <= n,
                    forall|j: int| 0 <= j < i ==> fits_track(#[trigger] tracks@[j]@),
                    smf_tracks(data@) == Some(event_views(tracks@)),
                    timing_safe(data@),
                decreases n - i,
            {
                if !fits(&tracks[i]) {
                    proof {
                        let ts = smf_tracks(data@)->0;
                        assert(ts == event_views(tracks@));
                        assert(ts[i as int] == tracks@[i as int]@);
                        assert(!fits_track(ts[i as int]));
                    }
                    return Err(MidiError::OutOfRange);
                }
                i += 1;
            }
            proof {
                assert forall|j: int| 0 <= j < n implies fits_track(
                    #[trigger] event_views(tracks@)[j],
                ) by {
                    assert(event_views(tracks@)[j] == tracks@[j]@);
                }
            }
            Ok(Track::midi_to_notes(&tracks))
        },
    }
}

} // verus!
