use vstd::prelude::*;
use crate::order::Timed;

verus! {

/// Lowest key that has a character of its own.
pub const LOW_KEY: u8 = 54;

/// Highest key that has a character of its own.
pub const HIGH_KEY: u8 = 78;

/// A key that has no character and may not be folded into range.
#[derive(Clone, Copy, Debug, PartialEq, Eq)]
pub enum NoteError {
    InvalidKey(u8),
}

/// A pitched event: a MIDI key and the quantized tick where it starts.
#[derive(Clone, Copy, Debug, PartialEq, Eq)]
pub struct Note {
    pub key: u8,
    pub start_timing: u32,
}

impl Timed for Note {
    open spec fn tick_of(&self) -> int {
        self.start_timing as int
    }

    fn tick(&self) -> (r: u128) {
        self.start_timing as u128
    }
}

/// The key brought into `[LOW_KEY, HIGH_KEY]` by adding or taking away whole octaves.
pub open spec fn fold_key(k: int) -> int
    decreases (if k < LOW_KEY { LOW_KEY - k } else if k > HIGH_KEY { k - HIGH_KEY } else { 0 }),
{
    if k < LOW_KEY {
        fold_key(k + 12)
    } else if k > HIGH_KEY {
        fold_key(k - 12)
    } else {
        k
    }
}

/// The character of a key in range: consecutive keys from `A` on.
pub open spec fn char_of_key(k: int) -> char {
    ((k + 11) as u8) as char
}

/// The character of `key`, folded into range when `allow_fold` holds, else refused when out
/// of range.
pub open spec fn key_char(key: int, allow_fold: bool) -> Result<char, NoteError> {
    if LOW_KEY <= key <= HIGH_KEY {
        Ok(char_of_key(key))
    } else if allow_fold {
        Ok(char_of_key(fold_key(key)))
    } else {
        Err(NoteError::InvalidKey(key as u8))
    }
}

proof fn lemma_fold_key_range(k: int)
    ensures
        LOW_KEY <= fold_key(k) <= HIGH_KEY,
    decreases (if k < LOW_KEY { LOW_KEY - k } else if k > HIGH_KEY { k - HIGH_KEY } else { 0 }),
{
    if k < LOW_KEY {
        lemma_fold_key_range(k + 12);
    } else if k > HIGH_KEY {
        lemma_fold_key_range(k - 12);
    }
}

impl Note {
    pub fn new(key: u8, start_timing: u32) -> (r: Note)
        requires
            key <= 127,
        ensures
            r.key == key,
            r.start_timing == start_timing,
    {
        Note { key, start_timing }
    }

    /// The character of `key`; see `key_char`.
    pub fn key_to_char(key: u8, allow_fold: bool) -> (r: Result<char, NoteError>)
        ensures
            r == key_char(key as int, allow_fold),
    {
        if LOW_KEY <= key && key <= HIGH_KEY {
            Ok((key + 11) as char)
        } else if allow_fold {
            let mut k: u8 = key;
            while k < LOW_KEY
                invariant
                    fold_key(k as int) == fold_key(key as int),
                decreases (if k < LOW_KEY { LOW_KEY - k } else { 0 }),
            {
                k = k + 12;
            }
            while k > HIGH_KEY
                invariant
                    k >= LOW_KEY,
                    fold_key(k as int) == fold_key(key as int),
                decreases k,
            {
                k = k - 12;
            }
            proof {
                lemma_fold_key_range(key as int);
            }
            Ok((k + 11) as char)
        } else {
            Err(NoteError::InvalidKey(key))
        }
    }

    /// The character of this note's key; see `key_char`.
    pub fn to_char(&self, allow_fold: bool) -> (r: Result<char, NoteError>)
        ensures
            r == key_char(self.key as int, allow_fold),
    {
        Note::key_to_char(self.key, allow_fold)
    }
}

} // verus!
