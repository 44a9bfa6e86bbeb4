use vstd::prelude::*;
use crate::instruments::{Instruments, text_result};
use crate::note::NoteError;
use crate::utils::{merge_string, merged, views};

verus! {

/// The streams of `insts`, one for each, or the error of the first that has none.
pub open spec fn texts(insts: Seq<Instruments>, fold: bool) -> Result<Seq<Seq<char>>, NoteError>
    decreases insts.len(),
{
    if insts.len() == 0 {
        Ok(Seq::empty())
    } else {
        match texts(insts.drop_last(), fold) {
            Err(e) => Err(e),
            Ok(ts) => match insts.last().text(fold) {
                Err(e) => Err(e),
                Ok(t) => Ok(ts.push(t)),
            },
        }
    }
}

/// The stream of a song: the streams of its instruments merged into one.
pub open spec fn song_text(insts: Seq<Instruments>, fold: bool) -> Result<Seq<char>, NoteError> {
    match texts(insts, fold) {
        Ok(ts) => Ok(merged(ts)),
        Err(e) => Err(e),
    }
}

proof fn lemma_texts_error_stays(s: Seq<Instruments>, j: int, fold: bool)
    requires
        0 <= j <= s.len(),
        texts(s.take(j), fold) is Err,
    ensures
        texts(s, fold) == texts(s.take(j), fold),
    decreases s.len() - j,
{
    if j == s.len() {
        assert(s.take(j) =~= s);
    } else {
        let p = s.drop_last();
        assert(p.take(j) =~= s.take(j));
        lemma_texts_error_stays(p, j, fold);
    }
}

/// Instruments that play together.
pub struct Song {
    pub tracks: Vec<Instruments>,
    pub end: u32,
}

impl Song {
    /// Every instrument's track is in order.
    pub open spec fn wf(&self) -> bool {
        forall|i: int| 0 <= i < self.tracks@.len() ==> (#[trigger] self.tracks@[i]).wf()
    }

    pub fn new() -> (r: Self)
        ensures
            r.tracks@ == Seq::<Instruments>::empty(),
            r.end == 0,
    {
        Self { tracks: Vec::new(), end: 0 }
    }

    pub fn add_track(&mut self, track: Instruments)
        ensures
            final(self).tracks@ == old(self).tracks@.push(track),
            final(self).end == old(self).end,
    {
        self.tracks.push(track);
    }

    /// The stream of the song; see `song_text`.
    pub fn to_text(&self, relative_move: bool) -> (r: Result<String, NoteError>)
        requires
            self.wf(),
        ensures
            text_result(r) == song_text(self.tracks@, relative_move),
    {
        let mut t: Vec<String> = Vec::new();
        let n = self.tracks.len();
        let mut i: usize = 0;
        proof {
            assert(views(t@) =~= Seq::<Seq<char>>::empty());
            assert(self.tracks@.take(0) =~= Seq::<Instruments>::empty());
        }
        while i < n
            invariant
                n == self.tracks@.len(),
                i <= n,
                self.wf(),
                texts(self.tracks@.take(i as int), relative_move) == Ok::<
                    Seq<Seq<char>>,
                    NoteError,
                >(views(t@)),
            decreases n - i,
        {
            let ghost s = self.tracks@.take(i as int + 1);
            proof {
                assert(s.drop_last() =~= self.tracks@.take(i as int));
            }
            match self.tracks[i].to_text(relative_move) {
                Ok(text) => {
                    t.push(text);
                    proof {
                        assert(views(t@) =~= texts(s, relative_move)->Ok_0);
                    }
                },
                Err(e) => {
                    proof {
                        lemma_texts_error_stays(self.tracks@, i as int + 1, relative_move);
                    }
                    return Err(e);
                },
            }
            i += 1;
        }
        proof {
            assert(self.tracks@.take(n as int) =~= self.tracks@);
        }
        Ok(merge_string(&t))
    }
}

impl Default for Song {
    fn default() -> (r: Self)
        ensures
            r.tracks@ == Seq::<Instruments>::empty(),
            r.end == 0,
    {
        Song::new()
    }
}

} // verus!
