//! Pitched notes, their MIDI key numbers, and transposition.
use vstd::prelude::*;

verus! {

/// The highest octave a note can sit in.
pub const MAX_OCTAVE: u8 = 15;

/// A pitched note: a pitch class (0 = C, 1 = C#/Db, ..., 11 = B) in an octave.
#[derive(Debug, Clone, Copy, PartialEq, Eq, Structural, Hash)]
pub struct Note {
    pub pitch_class: u8,
    pub octave: u8,
}

impl Note {
    /// A note's pitch class is below 12 and its octave at most `MAX_OCTAVE`.
    pub open spec fn wf(&self) -> bool {
        self.pitch_class < 12 && self.octave <= MAX_OCTAVE
    }

    /// The number of semitones from C in octave 0 up to this note.
    pub open spec fn semitone_index(&self) -> int {
        12 * self.octave + self.pitch_class
    }
}

/// The highest semitone index a note can have.
pub open spec fn max_semitone_index() -> int {
    12 * MAX_OCTAVE + 11
}

/// The note at a semitone index, which is clamped to the range of notes.
pub open spec fn note_at_index(index: int) -> Note {
    let i = if index < 0 {
        0
    } else if index > max_semitone_index() {
        max_semitone_index()
    } else {
        index
    };
    Note { pitch_class: (i % 12) as u8, octave: (i / 12) as u8 }
}

/// A value that can be shifted by a number of semitones.
pub trait Transposable: Sized {
    /// Whether the value can be transposed.
    spec fn can_transpose(&self) -> bool;

    /// The value shifted by `semitones`.
    spec fn transposed(&self, semitones: i8) -> Self;

    /// Transposes the value by the given number of semitones.
    fn transpose(self, semitones: i8) -> (r: Self)
        requires
            self.can_transpose(),
        ensures
            r == self.transposed(semitones),
    ;
}

impl Transposable for Note {
    open spec fn can_transpose(&self) -> bool {
        self.wf()
    }

    /// The note at the shifted semitone index; a shift past the lowest or
    /// highest note stops there.
    open spec fn transposed(&self, semitones: i8) -> Note {
        note_at_index(self.semitone_index() + semitones)
    }

    fn transpose(self, semitones: i8) -> (r: Note) {
        let current_index: i32 = (self.octave as i32) * 12 + (self.pitch_class as i32);
        let mut new_index: i32 = current_index + (semitones as i32);
        if new_index < 0 {
            new_index = 0;
        }
        if new_index > 12 * (MAX_OCTAVE as i32) + 11 {
            new_index = 12 * (MAX_OCTAVE as i32) + 11;
        }
        let new_octave = new_index / 12;
        let new_pitch_index = new_index % 12;
        Note { pitch_class: new_pitch_index as u8, octave: new_octave as u8 }
    }
}

/// A value with a MIDI key number.
pub trait HasMidiValue {
    /// Whether the value has a key number.
    spec fn has_midi_value(&self) -> bool;

    /// The key number.
    spec fn spec_midi_value(&self) -> int;

    /// Calculates the MIDI key number of the value.
    fn midi_value(&self) -> (r: u8)
        requires
            self.has_midi_value(),
        ensures
            r as int == self.spec_midi_value(),
    ;
}

impl HasMidiValue for Note {
    open spec fn has_midi_value(&self) -> bool {
        self.wf()
    }

    /// `12 * (octave + 1) + pitch_class`: middle C (C4) is 60.
    open spec fn spec_midi_value(&self) -> int {
        12 * (self.octave + 1) + self.pitch_class
    }

    fn midi_value(&self) -> (r: u8) {
        let pitch_offset = self.pitch_class;
        let octave = self.octave;
        12 * (octave + 1) + pitch_offset
    }
}

/// A note, or a rest that takes time but sounds nothing.
#[derive(Debug, Clone, Copy, PartialEq, Eq)]
pub enum NoteOrRest {
    Note(Note),
    Rest,
}

/// A value that stands for a note or a rest.
pub trait IntoNoteOrRest: Sized {
    /// The note or rest that the value stands for.
    spec fn spec_note_or_rest(self) -> NoteOrRest;

    /// Converts the value into a note or a rest.
    fn into_note_or_rest(self) -> (r: NoteOrRest)
        ensures
            r == self.spec_note_or_rest(),
    ;
}

impl IntoNoteOrRest for Note {
    open spec fn spec_note_or_rest(self) -> NoteOrRest {
        NoteOrRest::Note(self)
    }

    fn into_note_or_rest(self) -> (r: NoteOrRest) {
        NoteOrRest::Note(self)
    }
}

impl IntoNoteOrRest for NoteOrRest {
    open spec fn spec_note_or_rest(self) -> NoteOrRest {
        self
    }

    fn into_note_or_rest(self) -> (r: NoteOrRest) {
        self
    }
}

/// Transposing up an octave keeps the pitch class and raises the octave by
/// one, for a note below the highest octave.
pub proof fn lemma_transpose_octave_up(n: Note)
    requires
        n.wf(),
        n.octave < MAX_OCTAVE,
    ensures
        n.transposed(12).pitch_class == n.pitch_class,
        n.transposed(12).octave == n.octave + 1,
{
}

/// Transposing down and back up by the same amount gives the note back,
/// when the first shift stays inside the range of notes.
pub proof fn lemma_transpose_round_trip(n: Note, semitones: i8)
    requires
        n.wf(),
        0 <= n.semitone_index() - semitones <= max_semitone_index(),
        semitones > i8::MIN,
    ensures
        n.transposed((-semitones) as i8).transposed(semitones) == n,
{
    let m = n.transposed((-semitones) as i8);
    assert(m.semitone_index() == n.semitone_index() - semitones);
}

} // verus!
