use vstd::prelude::*;
use vstd::string::StringExecFns;
use crate::note::{Note, NoteError, key_char, LOW_KEY, HIGH_KEY};
use crate::order::{sort_by_tick, sorted_by_tick, insert_all_timed, lemma_sort_by_tick, lemma_sort_keeps_items};
use crate::utils::{encode_ticks, push_ticks};

verus! {

/// Notes in non-decreasing order of their start, each with a MIDI key.
pub open spec fn valid_track(s: Seq<Note>) -> bool {
    &&& sorted_by_tick(s)
    &&& forall|i: int| 0 <= i < s.len() ==> #[trigger] s[i].key <= 127
}

/// A sequence of notes, in order of their start.
#[derive(Clone, Debug, PartialEq)]
pub struct Track(pub Vec<Note>);

impl View for Track {
    type V = Seq<Note>;

    open spec fn view(&self) -> Seq<Note> {
        self.0@
    }
}

impl Track {
    /// The notes are in order of their start and have MIDI keys.
    pub open spec fn wf(&self) -> bool {
        valid_track(self@)
    }

    pub fn new() -> (r: Track)
        ensures
            r@ == Seq::<Note>::empty(),
            r.wf(),
    {
        Track(Vec::new())
    }

    /// Appends a note that starts no earlier than the last one.
    pub fn push(&mut self, note: Note)
        requires
            old(self).wf(),
            note.key <= 127,
            old(self)@.len() == 0 || old(self)@.last().start_timing <= note.start_timing,
        ensures
            final(self)@ == old(self)@.push(note),
            final(self).wf(),
    {
        self.0.push(note);
    }

    pub fn len(&self) -> (r: usize)
        ensures
            r == self@.len(),
    {
        self.0.len()
    }

    pub fn is_empty(&self) -> (r: bool)
        ensures
            r == (self@.len() == 0),
    {
        self.0.len() == 0
    }

    /// Adds the notes of `track` after these, then sorts all of them stably by start.
    pub fn merge(&mut self, track: Self)
        requires
            old(self).wf(),
            track.wf(),
        ensures
            final(self)@ == sort_by_tick(old(self)@ + track@),
            final(self).wf(),
    {
        let ghost both = self@ + track@;
        proof {
            lemma_sort_by_tick(both);
            lemma_sort_keeps_items(both);
        }
        insert_all_timed(&mut self.0, &track.0);
        proof {
            assert forall|i: int| 0 <= i < self@.len() implies #[trigger] self@[i].key <= 127 by {
                assert(both.contains(sort_by_tick(both)[i]));
            }
        }
    }
}

/// The characters of `note`. A plain note is `prefix` then the character of its key. A melodic
/// note shifts keys from `HIGH_KEY` up by an octave down behind `+`, and keys from `LOW_KEY`
/// down by an octave up behind `-`; without folding only within two octaves of the band.
pub open spec fn note_text(note: Note, melodic: bool, prefix: Seq<char>, fold: bool) -> Result<
    Seq<char>,
    NoteError,
> {
    let k = note.key as int;
    if !melodic {
        with_prefix(prefix, key_char(k, fold))
    } else if k >= HIGH_KEY && (fold || k <= HIGH_KEY + 24) {
        with_prefix(seq!['+'], key_char(k - 24, fold))
    } else if k <= LOW_KEY && (fold || k >= LOW_KEY - 24) {
        with_prefix(seq!['-'], key_char(k + 24, fold))
    } else {
        with_prefix(Seq::empty(), key_char(k, fold))
    }
}

/// `prefix` followed by the character `c`, if there is one.
pub open spec fn with_prefix(prefix: Seq<char>, c: Result<char, NoteError>) -> Result<
    Seq<char>,
    NoteError,
> {
    match c {
        Ok(c) => Ok(prefix.push(c)),
        Err(e) => Err(e),
    }
}

/// The stream for `notes`: for each note the gap from the start of the note before it (from
/// tick 0 for the first), then its characters; the first note that has none gives the error.
pub open spec fn render(notes: Seq<Note>, melodic: bool, prefix: Seq<char>, fold: bool) -> Result<
    Seq<char>,
    NoteError,
>
    decreases notes.len(),
{
    if notes.len() == 0 {
        Ok(Seq::empty())
    } else {
        let p = notes.drop_last();
        let n = notes.last();
        let prev: int = if p.len() == 0 {
            0
        } else {
            p.last().start_timing as int
        };
        match render(p, melodic, prefix, fold) {
            Err(e) => Err(e),
            Ok(t) => match note_text(n, melodic, prefix, fold) {
                Err(e) => Err(e),
                Ok(s) => Ok(t + encode_ticks((n.start_timing - prev) as nat) + s),
            },
        }
    }
}

/// The characters of a rendered stream, or its error.
pub open spec fn text_result(r: Result<String, NoteError>) -> Result<Seq<char>, NoteError> {
    match r {
        Ok(s) => Ok(s@),
        Err(e) => Err(e),
    }
}

proof fn lemma_render_error_stays(s: Seq<Note>, j: int, melodic: bool, prefix: Seq<char>, fold: bool)
    requires
        0 <= j <= s.len(),
        render(s.take(j), melodic, prefix, fold) is Err,
    ensures
        render(s, melodic, prefix, fold) == render(s.take(j), melodic, prefix, fold),
    decreases s.len() - j,
{
    if j == s.len() {
        assert(s.take(j) =~= s);
    } else {
        let p = s.drop_last();
        assert(p.take(j) =~= s.take(j));
        lemma_render_error_stays(p, j, melodic, prefix, fold);
    }
}

/// Appends the characters of `note`; see `note_text`.
fn push_note(out: &mut String, note: Note, melodic: bool, prefix: &str, fold: bool) -> (r: Result<
    (),
    NoteError,
>)
    ensures
        match note_text(note, melodic, prefix@, fold) {
            Ok(t) => r is Ok && final(out)@ == old(out)@ + t,
            Err(e) => r == Err::<(), NoteError>(e),
        },
{
    let k = note.key;
    if !melodic {
        match note.to_char(fold) {
            Ok(c) => {
                out.append(prefix);
                out.push(c);
                Ok(())
            },
            Err(e) => Err(e),
        }
    } else {
        let (sign, key): (Option<char>, u8) = if k >= HIGH_KEY && (fold || k <= HIGH_KEY + 24) {
            (Some('+'), k - 24)
        } else if k <= LOW_KEY && (fold || k >= LOW_KEY - 24) {
            (Some('-'), k + 24)
        } else {
            (None, k)
        };
        match Note::key_to_char(key, fold) {
            Ok(c) => {
                if let Some(sg) = sign {
                    out.push(sg);
                }
                out.push(c);
                proof {
                    assert(out@ =~= old(out)@ + note_text(note, melodic, prefix@, fold)->Ok_0);
                }
                Ok(())
            },
            Err(e) => Err(e),
        }
    }
}

/// The stream for the notes of `track`; see `render`.
fn render_track(track: &Track, melodic: bool, prefix: &str, fold: bool) -> (r: Result<
    String,
    NoteError,
>)
    requires
        track.wf(),
    ensures
        text_result(r) == render(track@, melodic, prefix@, fold),
{
    let mut result = String::new();
    let mut current: u32 = 0;
    let n = track.0.len();
    let mut i: usize = 0;
    while i < n
        invariant
            n == track@.len(),
            i <= n,
            track.wf(),
            render(track@.take(i as int), melodic, prefix@, fold) == Ok::<Seq<char>, NoteError>(
                result@,
            ),
            current as int == (if i == 0 {
                0
            } else {
                track@[i - 1].start_timing as int
            }),
        decreases n - i,
    {
        let note = track.0[i];
        let ghost t = track@.take(i as int + 1);
        proof {
            assert(t.drop_last() =~= track@.take(i as int));
            if i > 0 {
                assert(track@[i - 1].start_timing <= note.start_timing);
            }
        }
        let ticks = note.start_timing - current;
        current = note.start_timing;
        push_ticks(&mut result, ticks as u128);
        match push_note(&mut result, note, melodic, prefix, fold) {
            Ok(()) => {
                proof {
                    assert(result@ =~= render(t, melodic, prefix@, fold)->Ok_0);
                }
            },
            Err(e) => {
                proof {
                    lemma_render_error_stays(track@, i as int + 1, melodic, prefix@, fold);
                }
                return Err(e);
            },
        }
        i += 1;
    }
    proof {
        assert(track@.take(n as int) =~= track@);
    }
    Ok(result)
}

/// The kinds of instrument: one melodic, the others with a fixed prefix character.
#[derive(Clone, Copy, Debug, PartialEq, Eq, Structural)]
pub enum InstrumentKind {
    Pling,
    Hat,
    Snare,
    BassDrum,
    Bass,
    Bell,
    Chime,
    Flute,
    Guitar,
    Harp,
    Xylophone,
}

#[derive(Clone, Copy, Debug, PartialEq, Eq)]
pub enum InstrumentError {
    MergeDifferentInstrumentTypes,
}

/// A track tagged with the instrument that plays it.
#[derive(Clone, Debug, PartialEq)]
pub enum Instruments {
    Pling(Track),
    Hat(Track),
    Snare(Track),
    BassDrum(Track),
    Bass(Track),
    Bell(Track),
    Chime(Track),
    Flute(Track),
    Guitar(Track),
    Harp(Track),
    Xylophone(Track),
}

/// The prefix character of each instrument but the melodic one.
pub open spec fn prefix_chars(kind: InstrumentKind) -> Seq<char> {
    match kind {
        InstrumentKind::Pling => Seq::empty(),
        InstrumentKind::Hat => seq!['!'],
        InstrumentKind::Snare => seq!['?'],
        InstrumentKind::BassDrum => seq!['='],
        InstrumentKind::Bass => seq!['\\'],
        InstrumentKind::Bell => seq!['/'],
        InstrumentKind::Chime => seq!['_'],
        InstrumentKind::Flute => seq!['@'],
        InstrumentKind::Guitar => seq![':'],
        InstrumentKind::Harp => seq![';'],
        InstrumentKind::Xylophone => seq![','],
    }
}

/// The characters of `prefix`; none for no prefix.
pub open spec fn prefix_view(prefix: Option<&str>) -> Seq<char> {
    match prefix {
        Some(p) => p@,
        None => Seq::empty(),
    }
}

impl Instruments {
    pub open spec fn kind_of(&self) -> InstrumentKind {
        match self {
            Instruments::Pling(_) => InstrumentKind::Pling,
            Instruments::Hat(_) => InstrumentKind::Hat,
            Instruments::Snare(_) => InstrumentKind::Snare,
            Instruments::BassDrum(_) => InstrumentKind::BassDrum,
            Instruments::Bass(_) => InstrumentKind::Bass,
            Instruments::Bell(_) => InstrumentKind::Bell,
            Instruments::Chime(_) => InstrumentKind::Chime,
            Instruments::Flute(_) => InstrumentKind::Flute,
            Instruments::Guitar(_) => InstrumentKind::Guitar,
            Instruments::Harp(_) => InstrumentKind::Harp,
            Instruments::Xylophone(_) => InstrumentKind::Xylophone,
        }
    }

    pub open spec fn track_of(&self) -> Track {
        match self {
            Instruments::Pling(t) => *t,
            Instruments::Hat(t) => *t,
            Instruments::Snare(t) => *t,
            Instruments::BassDrum(t) => *t,
            Instruments::Bass(t) => *t,
            Instruments::Bell(t) => *t,
            Instruments::Chime(t) => *t,
            Instruments::Flute(t) => *t,
            Instruments::Guitar(t) => *t,
            Instruments::Harp(t) => *t,
            Instruments::Xylophone(t) => *t,
        }
    }

    pub open spec fn wf(&self) -> bool {
        self.track_of().wf()
    }

    /// The stream of this instrument's track.
    pub open spec fn text(&self, fold: bool) -> Result<Seq<char>, NoteError> {
        match self.kind_of() {
            InstrumentKind::Pling => render(self.track_of()@, true, Seq::empty(), fold),
            k => render(self.track_of()@, false, prefix_chars(k), fold),
        }
    }

    pub fn new(instrument_kind: InstrumentKind, track: Track) -> (r: Self)
        ensures
            r.kind_of() == instrument_kind,
            r.track_of() == track,
    {
        match instrument_kind {
            InstrumentKind::Pling => Instruments::Pling(track),
            InstrumentKind::Hat => Instruments::Hat(track),
            InstrumentKind::Snare => Instruments::Snare(track),
            InstrumentKind::BassDrum => Instruments::BassDrum(track),
            InstrumentKind::Bass => Instruments::Bass(track),
            InstrumentKind::Bell => Instruments::Bell(track),
            InstrumentKind::Chime => Instruments::Chime(track),
            InstrumentKind::Flute => Instruments::Flute(track),
            InstrumentKind::Guitar => Instruments::Guitar(track),
            InstrumentKind::Harp => Instruments::Harp(track),
            InstrumentKind::Xylophone => Instruments::Xylophone(track),
        }
    }

    pub fn kind(&self) -> (r: InstrumentKind)
        ensures
            r == self.kind_of(),
    {
        match self {
            Instruments::Pling(_) => InstrumentKind::Pling,
            Instruments::Hat(_) => InstrumentKind::Hat,
            Instruments::Snare(_) => InstrumentKind::Snare,
            Instruments::BassDrum(_) => InstrumentKind::BassDrum,
            Instruments::Bass(_) => InstrumentKind::Bass,
            Instruments::Bell(_) => InstrumentKind::Bell,
            Instruments::Chime(_) => InstrumentKind::Chime,
            Instruments::Flute(_) => InstrumentKind::Flute,
            Instruments::Guitar(_) => InstrumentKind::Guitar,
            Instruments::Harp(_) => InstrumentKind::Harp,
            Instruments::Xylophone(_) => InstrumentKind::Xylophone,
        }
    }

    pub fn into_track(self) -> (r: Track)
        ensures
            r == self.track_of(),
    {
        match self {
            Instruments::Pling(t) => t,
            Instruments::Hat(t) => t,
            Instruments::Snare(t) => t,
            Instruments::BassDrum(t) => t,
            Instruments::Bass(t) => t,
            Instruments::Bell(t) => t,
            Instruments::Chime(t) => t,
            Instruments::Flute(t) => t,
            Instruments::Guitar(t) => t,
            Instruments::Harp(t) => t,
            Instruments::Xylophone(t) => t,
        }
    }

    /// Merges the track of another instrument of the same kind into this one's; an instrument
    /// of another kind is refused and nothing changes.
    pub fn merge(&mut self, track: Self) -> (r: Result<(), InstrumentError>)
        requires
            old(self).wf(),
            track.wf(),
        ensures
            old(self).kind_of() == track.kind_of() ==> {
                &&& r is Ok
                &&& final(self).kind_of() == old(self).kind_of()
                &&& final(self).track_of()@ == sort_by_tick(
                    old(self).track_of()@ + track.track_of()@,
                )
                &&& final(self).wf()
            },
            old(self).kind_of() != track.kind_of() ==> {
                &&& r == Err::<(), InstrumentError>(InstrumentError::MergeDifferentInstrumentTypes)
                &&& *final(self) == *old(self)
            },
    {
        if !(self.kind() == track.kind()) {
            return Err(InstrumentError::MergeDifferentInstrumentTypes);
        }
        let other = track.into_track();
        match self {
            Instruments::Pling(t) => t.merge(other),
            Instruments::Hat(t) => t.merge(other),
            Instruments::Snare(t) => t.merge(other),
            Instruments::BassDrum(t) => t.merge(other),
            Instruments::Bass(t) => t.merge(other),
            Instruments::Bell(t) => t.merge(other),
            Instruments::Chime(t) => t.merge(other),
            Instruments::Flute(t) => t.merge(other),
            Instruments::Guitar(t) => t.merge(other),
            Instruments::Harp(t) => t.merge(other),
            Instruments::Xylophone(t) => t.merge(other),
        }
        Ok(())
    }

    /// The stream of this instrument's track; see `text`.
    pub fn to_text(&self, relative_move: bool) -> (r: Result<String, NoteError>)
        requires
            self.wf(),
        ensures
            text_result(r) == self.text(relative_move),
    {
        match self {
            Instruments::Pling(track) => {
                proof {
                    reveal_strlit("");
                    assert(""@ =~= Seq::<char>::empty());
                }
                render_track(track, true, "", relative_move)
            },
            Instruments::Hat(track) => {
                proof {
                    reveal_strlit("!");
                    assert("!"@ =~= seq!['!']);
                }
                Instruments::track_to_string(track, Some("!"), relative_move)
            },
            Instruments::Snare(track) => {
                proof {
                    reveal_strlit("?");
                    assert("?"@ =~= seq!['?']);
                }
                Instruments::track_to_string(track, Some("?"), relative_move)
            },
            Instruments::BassDrum(track) => {
                proof {
                    reveal_strlit("=");
                    assert("="@ =~= seq!['=']);
                }
                Instruments::track_to_string(track, Some("="), relative_move)
            },
            Instruments::Bass(track) => {
                proof {
                    reveal_strlit("\\");
                    assert("\\"@ =~= seq!['\\']);
                }
                Instruments::track_to_string(track, Some("\\"), relative_move)
            },
            Instruments::Bell(track) => {
                proof {
                    reveal_strlit("/");
                    assert("/"@ =~= seq!['/']);
                }
                Instruments::track_to_string(track, Some("/"), relative_move)
            },
            Instruments::Chime(track) => {
                proof {
                    reveal_strlit("_");
                    assert("_"@ =~= seq!['_']);
                }
                Instruments::track_to_string(track, Some("_"), relative_move)
            },
            Instruments::Flute(track) => {
                proof {
                    reveal_strlit("@");
                    assert("@"@ =~= seq!['@']);
                }
                Instruments::track_to_string(track, Some("@"), relative_move)
            },
            Instruments::Guitar(track) => {
                proof {
                    reveal_strlit(":");
                    assert(":"@ =~= seq![':']);
                }
                Instruments::track_to_string(track, Some(":"), relative_move)
            },
            Instruments::Harp(track) => {
                proof {
                    reveal_strlit(";");
                    assert(";"@ =~= seq![';']);
                }
                Instruments::track_to_string(track, Some(";"), relative_move)
            },
            Instruments::Xylophone(track) => {
                proof {
                    reveal_strlit(",");
                    assert(","@ =~= seq![',']);
                }
                Instruments::track_to_string(track, Some(","), relative_move)
            },
        }
    }

    /// The stream of `track`, each note's character behind `prefix`; see `render`.
    pub fn track_to_string(track: &Track, prefix: Option<&str>, relative_move: bool) -> (r: Result<
        String,
        NoteError,
    >)
        requires
            track.wf(),
        ensures
            text_result(r) == render(track@, false, prefix_view(prefix), relative_move),
    {
        let p = match prefix {
            Some(p) => p,
            None => "",
        };
        proof {
            reveal_strlit("");
            assert(""@ =~= Seq::<char>::empty());
        }
        render_track(track, false, p, relative_move)
    }
}

} // verus!
