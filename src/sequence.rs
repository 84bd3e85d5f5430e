//! Sequences of notes and chords placed at tick times, and their compilation
//! to a MIDI track.
use vstd::prelude::*;
use vstd::string::StrSliceExecFns;

use crate::error::OrdiseqError;
use crate::midi::{
    delta_encoded, lemma_sort_by_time_permutes, push_delta_encoded, sort_by_time, stable_sort_by_time, times_non_decreasing,
    MetaMessage, MidiFile, MidiMessage, TrackEvent, TrackEventKind, CLOCKS_PER_CLICK,
    MELODY_CHANNEL, THIRTY_SECONDS_PER_QUARTER,
};
use crate::note::{
    lemma_transpose_octave_up, lemma_transpose_round_trip, max_semitone_index, HasMidiValue,
    IntoNoteOrRest, Note, NoteOrRest, Transposable, MAX_OCTAVE,
};
use crate::time::{
    beat_ticks_exact, calculate_tpqn, recommended_tpqn, saturate_u32, scaled_round, Time,
    TimeSignature,
};

verus! {

/// One sounding note of a sequence.
#[derive(Debug, Clone, Copy, PartialEq, Eq)]
pub struct SequenceNote {
    pub note: Note,
    /// The MIDI velocity, 0 to 127.
    pub velocity: u8,
    pub duration: Time,
}

/// Notes that start together; each may last differently.
#[derive(Debug, Clone, PartialEq, Eq)]
pub struct SequenceChord {
    pub sequence_notes: Vec<SequenceNote>,
}

/// What a sequence holds at one time: a note or a chord.
#[derive(Debug, Clone, PartialEq, Eq)]
pub enum SequenceElement {
    Note(SequenceNote),
    Chord(SequenceChord),
}

/// The velocity of notes added by `Sequence::load`: 0.7 of full scale.
pub const LOAD_VELOCITY: u8 = 89;

/// Notes added by `Sequence::load` sound for `RELEASE_NUM / RELEASE_DEN` of
/// their length.
pub const RELEASE_NUM: u32 = 1;

pub const RELEASE_DEN: u32 = 2;

/// The ticks per quarter note written when no recommendation exists.
pub const DEFAULT_TPQN: u16 = 96;

/// Whether the times of `s` strictly increase.
pub open spec fn strictly_sorted(s: Seq<(u32, SequenceElement)>) -> bool {
    forall|i: int, j: int| 0 <= i < j < s.len() ==> s[i].0 < s[j].0
}

pub open spec fn has_time(s: Seq<(u32, SequenceElement)>, k: u32) -> bool {
    exists|i: int| 0 <= i < s.len() && s[i].0 == k
}

/// The element at each time of `s`.
pub open spec fn entries_map(s: Seq<(u32, SequenceElement)>) -> Map<u32, SequenceElement> {
    Map::new(
        |k: u32| has_time(s, k),
        |k: u32| s[choose|i: int| 0 <= i < s.len() && s[i].0 == k].1,
    )
}

/// A note that can sound from `time` without its end passing `u32::MAX`.
pub open spec fn note_fits(time: u32, n: SequenceNote) -> bool {
    n.note.wf() && time + n.duration.ticks <= u32::MAX
}

pub open spec fn element_fits(time: u32, e: SequenceElement) -> bool {
    match e {
        SequenceElement::Note(n) => note_fits(time, n),
        SequenceElement::Chord(c) => forall|j: int|
            0 <= j < c.sequence_notes@.len() ==> note_fits(time, #[trigger] c.sequence_notes@[j]),
    }
}

/// The key-down message of a note.
pub open spec fn note_on(n: SequenceNote) -> MidiMessage {
    MidiMessage::NoteOn { key: n.note.spec_midi_value() as u8, vel: n.velocity }
}

/// The key-up message of a note.
pub open spec fn note_off(n: SequenceNote) -> MidiMessage {
    MidiMessage::NoteOff { key: n.note.spec_midi_value() as u8, vel: 0 }
}

pub open spec fn timed_on(time: u32, n: SequenceNote) -> (u32, MidiMessage) {
    (time, note_on(n))
}

pub open spec fn timed_off(time: u32, n: SequenceNote) -> (u32, MidiMessage) {
    ((time + n.duration.ticks) as u32, note_off(n))
}

/// The time-stamped messages of one element: a note's key-down and key-up;
/// for a chord, every key-down in order, then every key-up.
pub open spec fn expand_element(time: u32, e: SequenceElement) -> Seq<(u32, MidiMessage)> {
    match e {
        SequenceElement::Note(n) => seq![timed_on(time, n), timed_off(time, n)],
        SequenceElement::Chord(c) => c.sequence_notes@.map_values(|n| timed_on(time, n))
            + c.sequence_notes@.map_values(|n| timed_off(time, n)),
    }
}

/// The time-stamped messages of all elements, element by element.
pub open spec fn expand_all(s: Seq<(u32, SequenceElement)>) -> Seq<(u32, MidiMessage)>
    decreases s.len(),
{
    if s.len() == 0 {
        seq![]
    } else {
        expand_all(s.drop_last()) + expand_element(s.last().0, s.last().1)
    }
}

/// The notes of a chord built from (note, velocity, duration) entries.
pub open spec fn chord_notes(notes: Seq<(Note, u8, Time)>) -> Seq<SequenceNote> {
    Seq::new(
        notes.len(),
        |j: int| SequenceNote { note: notes[j].0, velocity: notes[j].1, duration: notes[j].2 },
    )
}

/// An element with each note pitch shifted by `semitones`.
pub open spec fn transpose_element(e: SequenceElement, semitones: i8) -> SequenceElement {
    match e {
        SequenceElement::Note(n) => SequenceElement::Note(
            SequenceNote { note: n.note.transposed(semitones), ..n },
        ),
        SequenceElement::Chord(c) => SequenceElement::Chord(c),
    }
}

/// The length in ticks of `beats` whole beats.
pub open spec fn beats_ticks(ts: TimeSignature, beats: u32) -> int {
    saturate_u32(beat_ticks_exact(ts, beats as int, 1)) as int
}

/// Where the next item of `load` starts: the sum of the lengths of `items`.
pub open spec fn load_cursor(ts: TimeSignature, items: Seq<(NoteOrRest, u32)>) -> int
    decreases items.len(),
{
    if items.len() == 0 {
        0
    } else {
        load_cursor(ts, items.drop_last()) + beats_ticks(ts, items.last().1)
    }
}

/// The note that `load` places for an item of `len` ticks.
pub open spec fn loaded_note(n: Note, len: int) -> SequenceNote {
    SequenceNote {
        note: n,
        velocity: LOAD_VELOCITY,
        duration: Time {
            ticks: scaled_round(len, RELEASE_NUM as int, RELEASE_DEN as int) as u32,
        },
    }
}

/// The elements after loading `items` over `base`: each note is placed at
/// the sum of the lengths before it; rests only take time.
pub open spec fn loaded(
    base: Map<u32, SequenceElement>,
    ts: TimeSignature,
    items: Seq<(NoteOrRest, u32)>,
) -> Map<u32, SequenceElement>
    decreases items.len(),
{
    if items.len() == 0 {
        base
    } else {
        let before = loaded(base, ts, items.drop_last());
        match items.last().0 {
            NoteOrRest::Note(n) => before.insert(
                load_cursor(ts, items.drop_last()) as u32,
                SequenceElement::Note(loaded_note(n, beats_ticks(ts, items.last().1))),
            ),
            NoteOrRest::Rest => before,
        }
    }
}

/// The ticks per quarter note written for a signature.
pub open spec fn sequence_ppq(ts: TimeSignature) -> u16 {
    match recommended_tpqn(ts) {
        Some(v) => if v <= u16::MAX {
            v as u16
        } else {
            DEFAULT_TPQN
        },
        None => DEFAULT_TPQN,
    }
}

/// The track of a sequence whose elements in time order are `s`.
pub open spec fn compiled_track(ts: TimeSignature, s: Seq<(u32, SequenceElement)>) -> Seq<
    TrackEvent,
> {
    seq![
        TrackEvent {
            delta: 0,
            kind: TrackEventKind::Meta(
                MetaMessage::TimeSignature(
                    ts.beats_per_bar,
                    ts.beat_unit,
                    CLOCKS_PER_CLICK,
                    THIRTY_SECONDS_PER_QUARTER,
                ),
            ),
        },
    ] + delta_encoded(sort_by_time(expand_all(s)), MELODY_CHANNEL) + seq![
        TrackEvent { delta: 0, kind: TrackEventKind::Meta(MetaMessage::EndOfTrack) },
    ]
}

proof fn lemma_unique_time(s: Seq<(u32, SequenceElement)>, i: int, j: int)
    requires
        strictly_sorted(s),
        0 <= i < s.len(),
        0 <= j < s.len(),
        s[i].0 == s[j].0,
    ensures
        i == j,
{
    if i < j {
        assert(s[i].0 < s[j].0);
    } else if j < i {
        assert(s[j].0 < s[i].0);
    }
}

/// The map of a sorted entry list holds each entry.
proof fn lemma_entries_map_at(s: Seq<(u32, SequenceElement)>, i: int)
    requires
        strictly_sorted(s),
        0 <= i < s.len(),
    ensures
        entries_map(s).contains_key(s[i].0),
        entries_map(s)[s[i].0] == s[i].1,
{
    let k = s[i].0;
    assert(has_time(s, k));
    let j = choose|j: int| 0 <= j < s.len() && s[j].0 == k;
    lemma_unique_time(s, i, j);
}

proof fn lemma_entries_map_update(s: Seq<(u32, SequenceElement)>, p: int, e: SequenceElement)
    requires
        strictly_sorted(s),
        0 <= p < s.len(),
    ensures
        strictly_sorted(s.update(p, (s[p].0, e))),
        entries_map(s.update(p, (s[p].0, e))) == entries_map(s).insert(s[p].0, e),
{
    let t = s[p].0;
    let s2 = s.update(p, (t, e));
    assert(strictly_sorted(s2));
    let m = entries_map(s).insert(t, e);
    assert forall|k: u32| #[trigger] entries_map(s2).contains_key(k) <==> m.contains_key(k) by {
        if has_time(s, k) {
            let i = choose|i: int| 0 <= i < s.len() && s[i].0 == k;
            assert(s2[i].0 == k);
        }
        if has_time(s2, k) {
            let i = choose|i: int| 0 <= i < s2.len() && s2[i].0 == k;
            assert(s[i].0 == k);
        }
    }
    assert forall|k: u32| #[trigger] entries_map(s2).contains_key(k) implies entries_map(s2)[k]
        == m[k] by {
        let i = choose|i: int| 0 <= i < s2.len() && s2[i].0 == k;
        lemma_entries_map_at(s2, i);
        if i != p {
            lemma_entries_map_at(s, i);
        }
    }
    assert(entries_map(s2) =~= m);
}

proof fn lemma_entries_map_insert(
    s: Seq<(u32, SequenceElement)>,
    p: int,
    t: u32,
    e: SequenceElement,
)
    requires
        strictly_sorted(s),
        0 <= p <= s.len(),
        forall|j: int| 0 <= j < p ==> s[j].0 < t,
        forall|j: int| p <= j < s.len() ==> s[j].0 > t,
    ensures
        strictly_sorted(s.insert(p, (t, e))),
        entries_map(s.insert(p, (t, e))) == entries_map(s).insert(t, e),
{
    let s2 = s.insert(p, (t, e));
    assert forall|a: int, b: int| 0 <= a < b < s2.len() implies s2[a].0 < s2[b].0 by {
        if b < p {
        } else if a < p && b == p {
        } else if a < p {
            assert(s2[b] == s[b - 1]);
        } else if a == p {
            assert(s2[b] == s[b - 1]);
        } else {
            assert(s2[a] == s[a - 1] && s2[b] == s[b - 1]);
        }
    }
    let m = entries_map(s).insert(t, e);
    assert forall|k: u32| #[trigger] entries_map(s2).contains_key(k) <==> m.contains_key(k) by {
        if has_time(s, k) {
            let i = choose|i: int| 0 <= i < s.len() && s[i].0 == k;
            if i < p {
                assert(s2[i].0 == k);
            } else {
                assert(s2[i + 1].0 == k);
            }
        }
        if k == t {
            assert(s2[p].0 == k);
        }
        if has_time(s2, k) {
            let i = choose|i: int| 0 <= i < s2.len() && s2[i].0 == k;
            if i < p {
                assert(s[i].0 == k);
            } else if i > p {
                assert(s[i - 1].0 == k);
            }
        }
    }
    assert forall|k: u32| #[trigger] entries_map(s2).contains_key(k) implies entries_map(s2)[k]
        == m[k] by {
        let i = choose|i: int| 0 <= i < s2.len() && s2[i].0 == k;
        lemma_entries_map_at(s2, i);
        if i < p {
            lemma_entries_map_at(s, i);
        } else if i > p {
            lemma_entries_map_at(s, i - 1);
        }
    }
    assert(entries_map(s2) =~= m);
}

/// A sequence of notes and chords, each at its own start time.
///
/// At most one element starts at a time: adding at a time that is taken
/// replaces what was there.
#[derive(Debug, Clone)]
pub struct Sequence {
    title: String,
    time_signature: TimeSignature,
    elements: Vec<(u32, SequenceElement)>,
}

impl View for Sequence {
    type V = Map<u32, SequenceElement>;

    /// The element at each start time.
    open spec fn view(&self) -> Map<u32, SequenceElement> {
        entries_map(self.spec_elements())
    }
}

impl Sequence {
    /// The elements with their start times, in increasing time order.
    pub closed spec fn spec_elements(&self) -> Seq<(u32, SequenceElement)> {
        self.elements@
    }

    pub closed spec fn spec_title(&self) -> Seq<char> {
        self.title@
    }

    pub closed spec fn spec_time_signature(&self) -> TimeSignature {
        self.time_signature
    }

    /// The start times increase strictly and every note fits in the tick
    /// range.
    pub open spec fn wf(&self) -> bool {
        &&& strictly_sorted(self.spec_elements())
        &&& forall|i: int|
            0 <= i < self.spec_elements().len() ==> element_fits(
                #[trigger] self.spec_elements()[i].0,
                self.spec_elements()[i].1,
            )
    }

    /// Creates an empty sequence.
    pub fn new(title: &str, time_signature: TimeSignature) -> (r: Result<Self, OrdiseqError>)
        ensures
            r matches Ok(s) && s.wf() && s@ == Map::<u32, SequenceElement>::empty()
                && s.spec_title() == title@ && s.spec_time_signature() == time_signature,
    {
        let s = Sequence { title: title.to_string(), time_signature, elements: Vec::new() };
        assert(s@ =~= Map::<u32, SequenceElement>::empty());
        Ok(s)
    }

    /// Places `e` at `time`, replacing what started there.
    fn insert_element(&mut self, time: u32, e: SequenceElement)
        requires
            old(self).wf(),
            element_fits(time, e),
        ensures
            final(self).wf(),
            final(self)@ == old(self)@.insert(time, e),
            final(self).spec_title() == old(self).spec_title(),
            final(self).spec_time_signature() == old(self).spec_time_signature(),
    {
        let ghost s = self.elements@;
        let mut p: usize = 0;
        while p < self.elements.len() && self.elements[p].0 < time
            invariant
                s == self.elements@,
                p <= s.len(),
                strictly_sorted(s),
                forall|j: int| 0 <= j < p ==> s[j].0 < time,
            decreases s.len() - p,
        {
            p = p + 1;
        }
        if p < self.elements.len() && self.elements[p].0 == time {
            proof {
                lemma_entries_map_update(s, p as int, e);
            }
            self.elements[p] = (time, e);
        } else {
            proof {
                assert forall|j: int| p <= j < s.len() implies s[j].0 > time by {
                    assert(s[p as int].0 <= s[j].0);
                }
                lemma_entries_map_insert(s, p as int, time, e);
            }
            self.elements.insert(p, (time, e));
        }
        proof {
            assert forall|i: int| 0 <= i < self.elements@.len() implies element_fits(
                #[trigger] self.elements@[i].0,
                self.elements@[i].1,
            ) by {
                if self.elements@[i] != (time, e) {
                    if i < p {
                        assert(self.elements@[i] == s[i]);
                    } else if i > p {
                        if self.elements@.len() == s.len() {
                            assert(self.elements@[i] == s[i]);
                        } else {
                            assert(self.elements@[i] == s[i - 1]);
                        }
                    }
                }
            }
        }
    }

    /// Adds a note at `time`, replacing what started there; a rest adds
    /// nothing.
    pub fn add_note<N: IntoNoteOrRest>(&mut self, time: Time, note: N, velocity: u8, duration: Time)
        requires
            old(self).wf(),
            note.spec_note_or_rest() matches NoteOrRest::Note(n) ==> n.wf() && time.ticks
                + duration.ticks <= u32::MAX,
        ensures
            final(self).wf(),
            final(self).spec_title() == old(self).spec_title(),
            final(self).spec_time_signature() == old(self).spec_time_signature(),
            match note.spec_note_or_rest() {
                NoteOrRest::Note(n) => final(self)@ == old(self)@.insert(
                    time.ticks,
                    SequenceElement::Note(SequenceNote { note: n, velocity, duration }),
                ),
                NoteOrRest::Rest => final(self)@ == old(self)@,
            },
    {
        match note.into_note_or_rest() {
            NoteOrRest::Note(note) => {
                self.insert_element(
                    time.ticks,
                    SequenceElement::Note(SequenceNote { note, velocity, duration }),
                );
            },
            NoteOrRest::Rest => {},
        }
    }

    /// Adds a chord at `time`, replacing what started there. Each entry of
    /// `notes` is a note with its velocity and duration.
    pub fn add_chord(&mut self, time: Time, notes: Vec<(Note, u8, Time)>)
        requires
            old(self).wf(),
            forall|j: int|
                0 <= j < notes@.len() ==> (#[trigger] notes@[j]).0.wf() && time.ticks
                    + notes@[j].2.ticks <= u32::MAX,
        ensures
            final(self).wf(),
            final(self).spec_title() == old(self).spec_title(),
            final(self).spec_time_signature() == old(self).spec_time_signature(),
            exists|c: SequenceChord|
                {
                    &&& #[trigger] c.sequence_notes@ == chord_notes(notes@)
                    &&& final(self)@ == old(self)@.insert(time.ticks, SequenceElement::Chord(c))
                },
    {
        let ghost target = chord_notes(notes@);
        let mut sequence_notes: Vec<SequenceNote> = Vec::new();
        let mut j: usize = 0;
        while j < notes.len()
            invariant
                j <= notes@.len(),
                sequence_notes@ == target.take(j as int),
                target.len() == notes@.len(),
                target == chord_notes(notes@),
            decreases notes@.len() - j,
        {
            let (note, velocity, duration) = notes[j];
            sequence_notes.push(SequenceNote { note, velocity, duration });
            assert(target.take(j + 1) =~= target.take(j as int).push(target[j as int]));
            j = j + 1;
        }
        assert(target.take(notes@.len() as int) =~= target);
        let chord = SequenceChord { sequence_notes };
        let ghost c = chord;
        self.insert_element(time.ticks, SequenceElement::Chord(chord));
        assert(c.sequence_notes@ == chord_notes(notes@));
    }

    /// Returns a copy of the sequence with every note shifted by
    /// `semitones`; the sequence itself is left as it is.
    ///
    /// Fails with `ChordTranspositionUnsupported` when the sequence holds a
    /// chord.
    pub fn transpose(&self, semitones: i8) -> (r: Result<Sequence, OrdiseqError>)
        requires
            self.wf(),
        ensures
            (r is Err) <==> exists|k: u32| #[trigger] self@.contains_key(k) && self@[k] is Chord,
            r matches Err(e) ==> e == OrdiseqError::ChordTranspositionUnsupported,
            r matches Ok(s) ==> {
                &&& s.wf()
                &&& s@ == self@.map_values(|e: SequenceElement| transpose_element(e, semitones))
                &&& s.spec_title() == self.spec_title()
                &&& s.spec_time_signature() == self.spec_time_signature()
            },
    {
        let ghost s = self.elements@;
        let mut out: Vec<(u32, SequenceElement)> = Vec::new();
        let mut i: usize = 0;
        while i < self.elements.len()
            invariant
                s == self.elements@,
                self.wf(),
                i <= s.len(),
                out@.len() == i,
                forall|j: int| 0 <= j < i ==> (#[trigger] s[j]).1 is Note,
                forall|j: int|
                    0 <= j < i ==> #[trigger] out@[j] == (s[j].0, transpose_element(
                        s[j].1,
                        semitones,
                    )),
            decreases s.len() - i,
        {
            let time = self.elements[i].0;
            proof {
                assert(element_fits(s[i as int].0, s[i as int].1));
            }
            match &self.elements[i].1 {
                SequenceElement::Note(n) => {
                    let transposed = SequenceNote {
                        note: n.note.transpose(semitones),
                        velocity: n.velocity,
                        duration: n.duration,
                    };
                    out.push((time, SequenceElement::Note(transposed)));
                },
                SequenceElement::Chord(_) => {
                    proof {
                        lemma_entries_map_at(s, i as int);
                    }
                    return Err(OrdiseqError::ChordTranspositionUnsupported);
                },
            }
            i = i + 1;
        }
        let result = Sequence {
            title: self.title.clone(),
            time_signature: self.time_signature,
            elements: out,
        };
        proof {
            let s2 = result.elements@;
            assert(strictly_sorted(s2)) by {
                assert forall|a: int, b: int| 0 <= a < b < s2.len() implies s2[a].0 < s2[b].0 by {
                    assert(s2[a].0 == s[a].0 && s2[b].0 == s[b].0);
                }
            }
            assert forall|j: int| 0 <= j < s2.len() implies element_fits(
                #[trigger] s2[j].0,
                s2[j].1,
            ) by {
                assert(element_fits(s[j].0, s[j].1));
                let n = s[j].1->Note_0;
                assert(s2[j].1 == SequenceElement::Note(
                    SequenceNote { note: n.note.transposed(semitones), ..n },
                ));
            }
            let m = self@.map_values(|e: SequenceElement| transpose_element(e, semitones));
            assert forall|k: u32| #[trigger] result@.contains_key(k) <==> m.contains_key(k) by {
                if has_time(s, k) {
                    let j = choose|j: int| 0 <= j < s.len() && s[j].0 == k;
                    assert(s2[j].0 == k);
                }
                if has_time(s2, k) {
                    let j = choose|j: int| 0 <= j < s2.len() && s2[j].0 == k;
                    assert(s[j].0 == k);
                }
            }
            assert forall|k: u32| #[trigger] result@.contains_key(k) implies result@[k] == m[k] by {
                let j = choose|j: int| 0 <= j < s2.len() && s2[j].0 == k;
                lemma_entries_map_at(s2, j);
                lemma_entries_map_at(s, j);
            }
            assert(result@ =~= m);
            assert forall|k: u32| #[trigger] self@.contains_key(k) implies !(self@[k] is Chord) by {
                let j = choose|j: int| 0 <= j < s.len() && s[j].0 == k;
                lemma_entries_map_at(s, j);
            }
        }
        Ok(result)
    }

    /// Places notes and rests one after another from tick 0.
    ///
    /// Each item is a note or rest with its length in beats. A note sounds
    /// for half its length at `LOAD_VELOCITY`; the next item starts after
    /// the full length. Rests only take time.
    pub fn load(&mut self, notes: &Vec<(NoteOrRest, u32)>) -> (r: Result<(), OrdiseqError>)
        requires
            old(self).wf(),
            old(self).spec_time_signature().wf(),
            load_cursor(old(self).spec_time_signature(), notes@) <= u32::MAX,
            forall|j: int|
                0 <= j < notes@.len() ==> ((#[trigger] notes@[j]).0 matches NoteOrRest::Note(n)
                    ==> n.wf()),
        ensures
            r is Ok,
            final(self).wf(),
            final(self)@ == loaded(old(self)@, old(self).spec_time_signature(), notes@),
            final(self).spec_title() == old(self).spec_title(),
            final(self).spec_time_signature() == old(self).spec_time_signature(),
    {
        let ghost base = self@;
        let ghost ts = self.time_signature;
        let mut start_time = Time { ticks: 0 };
        let mut i: usize = 0;
        while i < notes.len()
            invariant
                i <= notes@.len(),
                self.wf(),
                self.spec_time_signature() == ts,
                ts.wf(),
                self.spec_title() == old(self).spec_title(),
                start_time.ticks == load_cursor(ts, notes@.take(i as int)),
                load_cursor(ts, notes@) <= u32::MAX,
                self@ == loaded(base, ts, notes@.take(i as int)),
                forall|j: int|
                    0 <= j < notes@.len() ==> ((#[trigger] notes@[j]).0 matches NoteOrRest::Note(n)
                        ==> n.wf()),
            decreases notes@.len() - i,
        {
            let (note, beats) = notes[i];
            let length = self.time_signature.beat_time(beats, 1);
            proof {
                let items = notes@.take(i + 1);
                assert(items.drop_last() =~= notes@.take(i as int));
                assert(items.last() == notes@[i as int]);
                lemma_load_cursor_prefix(ts, notes@, i + 1);
            }
            let end_time = Time { ticks: start_time.ticks + length.ticks };
            proof {
                lemma_half_round_le(length.ticks as int);
            }
            let duration = length.scale(RELEASE_NUM, RELEASE_DEN);
            self.add_note(start_time, note, LOAD_VELOCITY, duration);
            start_time = end_time;
            i = i + 1;
        }
        assert(notes@.take(notes@.len() as int) =~= notes@);
        Ok(())
    }

    /// Compiles the sequence to a single-track MIDI file.
    ///
    /// The track starts with the time signature, then holds every key-down
    /// and key-up message on channel 0, sorted by absolute time (messages at
    /// the same time keep the order in which the elements produce them),
    /// each stamped with the ticks since the one before, and ends with the
    /// end-of-track event.
    pub fn to_midi(&self) -> (r: MidiFile)
        requires
            self.wf(),
        ensures
            r.ticks_per_quarter_note == sequence_ppq(self.spec_time_signature()),
            r.tracks@.len() == 1,
            r.tracks@[0]@ == compiled_track(self.spec_time_signature(), self.spec_elements()),
            times_non_decreasing(sort_by_time(expand_all(self.spec_elements()))),
            sort_by_time(expand_all(self.spec_elements())).to_multiset() == expand_all(
                self.spec_elements(),
            ).to_multiset(),
    {
        proof {
            lemma_sort_by_time_permutes(expand_all(self.spec_elements()));
        }
        let mut track: Vec<TrackEvent> = Vec::new();
        track.push(
            TrackEvent {
                delta: 0,
                kind: TrackEventKind::Meta(
                    MetaMessage::TimeSignature(
                        self.time_signature.beats_per_bar,
                        self.time_signature.beat_unit,
                        CLOCKS_PER_CLICK,
                        THIRTY_SECONDS_PER_QUARTER,
                    ),
                ),
            },
        );
        let events = self.timed_messages();
        let sorted = stable_sort_by_time(&events);
        push_delta_encoded(&mut track, &sorted, MELODY_CHANNEL);
        track.push(TrackEvent { delta: 0, kind: TrackEventKind::Meta(MetaMessage::EndOfTrack) });
        let mut tracks: Vec<Vec<TrackEvent>> = Vec::new();
        tracks.push(track);
        MidiFile { ticks_per_quarter_note: self.ppq(), tracks }
    }

    /// Every key-down and key-up message with its absolute time, element by
    /// element in time order.
    fn timed_messages(&self) -> (r: Vec<(u32, MidiMessage)>)
        requires
            self.wf(),
        ensures
            r@ == expand_all(self.spec_elements()),
    {
        let ghost s = self.elements@;
        let mut events: Vec<(u32, MidiMessage)> = Vec::new();
        let mut i: usize = 0;
        while i < self.elements.len()
            invariant
                s == self.elements@,
                self.wf(),
                i <= s.len(),
                events@ == expand_all(s.take(i as int)),
            decreases s.len() - i,
        {
            let time = self.elements[i].0;
            let ghost before = events@;
            proof {
                assert(element_fits(s[i as int].0, s[i as int].1));
            }
            match &self.elements[i].1 {
                SequenceElement::Note(n) => {
                    let key = n.note.midi_value();
                    events.push((time, MidiMessage::NoteOn { key, vel: n.velocity }));
                    events.push((time + n.duration.ticks, MidiMessage::NoteOff { key, vel: 0 }));
                    assert(events@ =~= before + expand_element(time, s[i as int].1));
                },
                SequenceElement::Chord(chord) => {
                    let notes = &chord.sequence_notes;
                    let ghost ons = notes@.map_values(|n: SequenceNote| timed_on(time, n));
                    let ghost offs = notes@.map_values(|n: SequenceNote| timed_off(time, n));
                    let mut j: usize = 0;
                    while j < notes.len()
                        invariant
                            j <= notes@.len(),
                            ons == notes@.map_values(|n: SequenceNote| timed_on(time, n)),
                            events@ == before + ons.take(j as int),
                            forall|q: int|
                                0 <= q < notes@.len() ==> note_fits(time, #[trigger] notes@[q]),
                        decreases notes@.len() - j,
                    {
                        let n = notes[j];
                        let key = n.note.midi_value();
                        events.push((time, MidiMessage::NoteOn { key, vel: n.velocity }));
                        assert(ons.take(j + 1) =~= ons.take(j as int).push(ons[j as int]));
                        j = j + 1;
                    }
                    assert(ons.take(notes@.len() as int) =~= ons);
                    let ghost mid = events@;
                    let mut j: usize = 0;
                    while j < notes.len()
                        invariant
                            j <= notes@.len(),
                            offs == notes@.map_values(|n: SequenceNote| timed_off(time, n)),
                            events@ == mid + offs.take(j as int),
                            forall|q: int|
                                0 <= q < notes@.len() ==> note_fits(time, #[trigger] notes@[q]),
                        decreases notes@.len() - j,
                    {
                        let n = notes[j];
                        let key = n.note.midi_value();
                        events.push((time + n.duration.ticks, MidiMessage::NoteOff { key, vel: 0 }));
                        assert(offs.take(j + 1) =~= offs.take(j as int).push(offs[j as int]));
                        j = j + 1;
                    }
                    assert(offs.take(notes@.len() as int) =~= offs);
                    assert(events@ =~= before + expand_element(time, s[i as int].1));
                },
            }
            proof {
                assert(s.take(i + 1).drop_last() =~= s.take(i as int));
            }
            i = i + 1;
        }
        assert(s.take(s.len() as int) =~= s);
        events
    }

    /// The ticks per quarter note written for this sequence: the
    /// recommendation for its signature, or `DEFAULT_TPQN` when there is none.
    fn ppq(&self) -> (r: u16)
        ensures
            r == sequence_ppq(self.spec_time_signature()),
    {
        match calculate_tpqn(self.time_signature) {
            Some(v) => v,
            None => DEFAULT_TPQN,
        }
    }

    /// The start times of the elements, in increasing order.
    pub fn start_times(&self) -> (r: Vec<u32>)
        ensures
            r@.len() == self.spec_elements().len(),
            forall|i: int| 0 <= i < r@.len() ==> #[trigger] r@[i] == self.spec_elements()[i].0,
    {
        let mut times: Vec<u32> = Vec::new();
        let mut i: usize = 0;
        while i < self.elements.len()
            invariant
                i <= self.elements@.len(),
                times@.len() == i,
                forall|j: int| 0 <= j < i ==> #[trigger] times@[j] == self.elements@[j].0,
            decreases self.elements@.len() - i,
        {
            times.push(self.elements[i].0);
            i = i + 1;
        }
        times
    }

    /// The element that starts at `time`, if any.
    pub fn get(&self, time: u32) -> (r: Option<&SequenceElement>)
        requires
            self.wf(),
        ensures
            r is Some <==> self@.contains_key(time),
            r matches Some(e) ==> *e == self@[time],
    {
        let mut i: usize = 0;
        while i < self.elements.len()
            invariant
                i <= self.elements@.len(),
                self.wf(),
                forall|j: int| 0 <= j < i ==> self.elements@[j].0 != time,
            decreases self.elements@.len() - i,
        {
            if self.elements[i].0 == time {
                proof {
                    lemma_entries_map_at(self.elements@, i as int);
                }
                return Some(&self.elements[i].1);
            }
            i = i + 1;
        }
        None
    }

    /// The title of the sequence.
    pub fn title(&self) -> (r: String)
        ensures
            r@ == self.spec_title(),
    {
        self.title.clone()
    }

    /// The time signature of the sequence.
    pub fn time_signature(&self) -> (r: TimeSignature)
        ensures
            r == self.spec_time_signature(),
    {
        self.time_signature
    }
}

proof fn lemma_half_round_le(len: int)
    requires
        0 <= len,
    ensures
        0 <= scaled_round(len, RELEASE_NUM as int, RELEASE_DEN as int) <= len,
{
    assert(0 <= (2 * len * 1 + 2) / 4int <= len) by (nonlinear_arith)
        requires
            0 <= len,
    ;
}

proof fn lemma_load_cursor_prefix(ts: TimeSignature, items: Seq<(NoteOrRest, u32)>, i: int)
    requires
        0 <= i <= items.len(),
    ensures
        load_cursor(ts, items.take(i)) <= load_cursor(ts, items),
        0 <= load_cursor(ts, items.take(i)),
    decreases items.len(),
{
    if items.len() > 0 {
        if i == items.len() {
            assert(items.take(i) =~= items);
            lemma_load_cursor_prefix(ts, items.drop_last(), i - 1);
            assert(items.drop_last().take(i - 1) =~= items.take(i).drop_last());
        } else {
            lemma_load_cursor_prefix(ts, items.drop_last(), i);
            assert(items.drop_last().take(i) =~= items.take(i));
        }
    }
}

/// Whether every element of `m` is a single valid note.
pub open spec fn only_notes(m: Map<u32, SequenceElement>) -> bool {
    forall|k: u32| #[trigger] m.contains_key(k) ==> m[k] is Note && m[k]->Note_0.note.wf()
}

/// Transposing a sequence of single notes up twelve semitones keeps every
/// start time, pitch class, velocity and duration and raises every octave by
/// one, when no note is in the highest octave.
pub proof fn lemma_sequence_octave_up(m: Map<u32, SequenceElement>)
    requires
        only_notes(m),
        forall|k: u32| #[trigger] m.contains_key(k) ==> m[k]->Note_0.note.octave < MAX_OCTAVE,
    ensures
        ({
            let t = m.map_values(|e: SequenceElement| transpose_element(e, 12));
            &&& t.dom() == m.dom()
            &&& forall|k: u32| #[trigger] t.contains_key(k) ==> {
                let before = m[k]->Note_0;
                let after = t[k]->Note_0;
                &&& t[k] is Note
                &&& after.note.pitch_class == before.note.pitch_class
                &&& after.note.octave == before.note.octave + 1
                &&& after.velocity == before.velocity
                &&& after.duration == before.duration
            }
        }),
{
    let t = m.map_values(|e: SequenceElement| transpose_element(e, 12));
    assert(t.dom() =~= m.dom());
    assert forall|k: u32| #[trigger] t.contains_key(k) implies t[k] is Note && t[k]->Note_0.note.pitch_class
        == m[k]->Note_0.note.pitch_class && t[k]->Note_0.note.octave == m[k]->Note_0.note.octave + 1 by {
        lemma_transpose_octave_up(m[k]->Note_0.note);
    }
}

/// Transposing a sequence of single notes down by `semitones` and then up
/// by the same amount gives it back, when no note leaves the range of notes
/// on the way down.
pub proof fn lemma_sequence_transpose_round_trip(m: Map<u32, SequenceElement>, semitones: i8)
    requires
        only_notes(m),
        semitones > i8::MIN,
        forall|k: u32| #[trigger] m.contains_key(k) ==> 0 <= m[k]->Note_0.note.semitone_index()
            - semitones <= max_semitone_index(),
    ensures
        m.map_values(|e: SequenceElement| transpose_element(e, (-semitones) as i8)).map_values(
            |e: SequenceElement| transpose_element(e, semitones),
        ) == m,
{
    let down = m.map_values(|e: SequenceElement| transpose_element(e, (-semitones) as i8));
    let back = down.map_values(|e: SequenceElement| transpose_element(e, semitones));
    assert forall|k: u32| #[trigger] back.contains_key(k) implies back[k] == m[k] by {
        lemma_transpose_round_trip(m[k]->Note_0.note, semitones);
    }
    assert(back =~= m);
}

} // verus!
