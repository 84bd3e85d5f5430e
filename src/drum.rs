//! Drum patterns: per-instrument Euclidean rhythms and their compilation to a
//! percussion track.
use vstd::prelude::*;
use vstd::arithmetic::div_mod::{lemma_mod_add_multiples_vanish, lemma_mod_self_0, lemma_small_mod};
use vstd::string::StrSliceExecFns;
use vstd::utf8::encode_utf8;

use crate::error::OrdiseqError;
use crate::midi::{
    MetaMessage, MidiFile, MidiMessage, TrackEvent, TrackEventKind, CLOCKS_PER_CLICK,
    PERCUSSION_CHANNEL, THIRTY_SECONDS_PER_QUARTER,
};
use crate::note::{HasMidiValue, Note};
use crate::rhythm::{euclidean_hit, generate_euclidean_rhythm};
use crate::time::TimeSignature;

verus! {

/// `s` rotated right by `k` steps: the step at index `i` moves to index
/// `(i + k) mod len`.
pub open spec fn rotate_right(s: Seq<(bool, u8)>, k: nat) -> Seq<(bool, u8)> {
    if s.len() == 0 {
        s
    } else {
        Seq::new(s.len(), |i: int| s[(i + s.len() - (k % s.len())) % (s.len() as int)])
    }
}

/// The Euclidean pattern of `pulses` hits at `velocity` over `steps` steps;
/// other steps are silent.
pub open spec fn euclidean_pattern(steps: nat, pulses: nat, velocity: u8) -> Seq<(bool, u8)> {
    Seq::new(
        steps,
        |i: int|
            if euclidean_hit(steps as int, pulses as int, i) {
                (true, velocity)
            } else {
                (false, 0u8)
            },
    )
}

/// The time of the last event of pattern `p` whose steps last `step` ticks:
/// the key-up half a step after its last hit, zero when it has no hit.
pub open spec fn last_release_time(p: Seq<(bool, u8)>, step: int) -> int
    decreases p.len(),
{
    if p.len() == 0 {
        0
    } else if p.last().0 {
        (p.len() - 1) * step + step / 2
    } else {
        last_release_time(p.drop_last(), step)
    }
}

/// The events of one instrument's pattern `p`: a hit at step `i` is a
/// key-down at `i * step` ticks and a key-up half a step later, each
/// stamped with the ticks since the event before it; the first event is
/// timed from the start of the pattern.
pub open spec fn pattern_events(p: Seq<(bool, u8)>, key: u8, step: int) -> Seq<TrackEvent>
    decreases p.len(),
{
    if p.len() == 0 {
        seq![]
    } else {
        let before = pattern_events(p.drop_last(), key, step);
        if p.last().0 {
            before + seq![
                TrackEvent {
                    delta: ((p.len() - 1) * step - last_release_time(p.drop_last(), step)) as u32,
                    kind: TrackEventKind::Midi {
                        channel: PERCUSSION_CHANNEL,
                        message: MidiMessage::NoteOn { key, vel: p.last().1 },
                    },
                },
                TrackEvent {
                    delta: (step / 2) as u32,
                    kind: TrackEventKind::Midi {
                        channel: PERCUSSION_CHANNEL,
                        message: MidiMessage::NoteOff { key, vel: 0 },
                    },
                },
            ]
        } else {
            before
        }
    }
}

/// The sum of the deltas of `s`: the time of its last event, counted from
/// the event before the first.
pub open spec fn delta_sum(s: Seq<TrackEvent>) -> int
    decreases s.len(),
{
    if s.len() == 0 {
        0
    } else {
        delta_sum(s.drop_last()) + s.last().delta
    }
}

proof fn lemma_delta_sum_concat(a: Seq<TrackEvent>, b: Seq<TrackEvent>)
    ensures
        delta_sum(a + b) == delta_sum(a) + delta_sum(b),
    decreases b.len(),
{
    if b.len() > 0 {
        lemma_delta_sum_concat(a, b.drop_last());
        assert((a + b).drop_last() =~= a + b.drop_last());
    }
}

proof fn lemma_last_release_bound(p: Seq<(bool, u8)>, step: int)
    requires
        step >= 0,
    ensures
        0 <= last_release_time(p, step) <= p.len() * step,
    decreases p.len(),
{
    if p.len() > 0 {
        lemma_last_release_bound(p.drop_last(), step);
        assert((p.len() - 1) * step + step / 2 <= p.len() * step) by (nonlinear_arith)
            requires
                step >= 0,
        ;
        assert((p.len() - 1) * step <= p.len() * step) by (nonlinear_arith)
            requires
                step >= 0,
        ;
    }
}

/// Within one instrument's events, counted from the start of its block, a
/// hit at the last step `i` of `p` has its key-down at `i * step` and its
/// key-up half a step later; the block ends with the key-up of the last hit.
pub proof fn lemma_pattern_event_times(p: Seq<(bool, u8)>, key: u8, step: int)
    requires
        0 <= step,
        p.len() * step <= u32::MAX,
    ensures
        delta_sum(pattern_events(p, key, step)) == last_release_time(p, step),
        p.len() > 0 && p.last().0 ==> {
            let ev = pattern_events(p, key, step);
            &&& ev.len() >= 2
            &&& delta_sum(ev.drop_last()) == (p.len() - 1) * step
            &&& ev.last().delta == step / 2
        },
    decreases p.len(),
{
    if p.len() > 0 {
        let q = p.drop_last();
        assert(q.len() * step <= p.len() * step) by (nonlinear_arith)
            requires
                step >= 0,
                q.len() <= p.len(),
        ;
        lemma_pattern_event_times(q, key, step);
        lemma_last_release_bound(q, step);
        if p.last().0 {
            let before = pattern_events(q, key, step);
            let ev = pattern_events(p, key, step);
            let on = ev[before.len() as int];
            let off = ev[before.len() as int + 1];
            assert(ev.drop_last() =~= before + seq![on]);
            assert(ev =~= before + seq![on, off]);
            assert((p.len() - 1) * step <= u32::MAX) by (nonlinear_arith)
                requires
                    step >= 0,
                    p.len() * step <= u32::MAX,
            ;
            lemma_delta_sum_concat(before, seq![on]);
            lemma_delta_sum_concat(before, seq![on, off]);
            assert(seq![on].drop_last() =~= Seq::<TrackEvent>::empty());
            assert(seq![on, off].drop_last() =~= seq![on]);
            assert(step <= u32::MAX) by (nonlinear_arith)
                requires
                    step >= 0,
                    p.len() >= 1,
                    p.len() * step <= u32::MAX,
            ;
            assert(q.len() == p.len() - 1);
            assert(on.delta == (p.len() - 1) * step - last_release_time(q, step));
            assert(off.delta == step / 2);
            assert(delta_sum(Seq::<TrackEvent>::empty()) == 0);
            assert(seq![on].last() == on);
            assert(delta_sum(seq![on]) == delta_sum(seq![on].drop_last()) + on.delta);
            assert(delta_sum(seq![on]) == on.delta);
            assert(seq![on, off].last() == off);
            assert(delta_sum(seq![on, off]) == on.delta + off.delta);
            assert(delta_sum(ev.drop_last()) == (p.len() - 1) * step);
            assert(last_release_time(p, step) == (p.len() - 1) * step + step / 2);
            assert(delta_sum(ev) == last_release_time(p, step));
        } else {
            assert(pattern_events(p, key, step) == pattern_events(q, key, step));
            assert(last_release_time(p, step) == last_release_time(q, step));
        }
    }
}

/// One instrument's rhythm and its rotation.
#[derive(Debug, Clone)]
pub struct DrumTrack {
    title: String,
    rhythm: Vec<(bool, u8)>,
    rotation: usize,
}

impl DrumTrack {
    pub closed spec fn spec_title(&self) -> Seq<char> {
        self.title@
    }

    /// The steps of the rhythm as stored: whether each is a hit, and its
    /// MIDI velocity.
    pub closed spec fn spec_rhythm(&self) -> Seq<(bool, u8)> {
        self.rhythm@
    }

    pub closed spec fn spec_rotation(&self) -> nat {
        self.rotation as nat
    }

    /// The rhythm as played: rotated right by the rotation.
    pub open spec fn spec_rotated(&self) -> Seq<(bool, u8)> {
        rotate_right(self.spec_rhythm(), self.spec_rotation())
    }

    /// Creates a track from a rhythm and a rotation.
    pub fn new(title: &str, rhythm: Vec<(bool, u8)>, rotation: usize) -> (r: DrumTrack)
        ensures
            r.spec_title() == title@,
            r.spec_rhythm() == rhythm@,
            r.spec_rotation() == rotation,
    {
        DrumTrack { title: title.to_string(), rhythm, rotation }
    }

    /// Returns the rhythm rotated right by the track's rotation, which counts
    /// modulo the rhythm's length; the stored rhythm is left as it is.
    pub fn rotated_pattern(&self) -> (r: Vec<(bool, u8)>)
        ensures
            r@ == self.spec_rotated(),
    {
        let n = self.rhythm.len();
        let mut rotated: Vec<(bool, u8)> = Vec::new();
        if n == 0 {
            assert(rotated@ =~= self.spec_rotated());
            return rotated;
        }
        let shift = self.rotation % n;
        let mut i: usize = 0;
        while i < n
            invariant
                n == self.rhythm@.len(),
                n > 0,
                shift == self.rotation % n,
                i <= n,
                rotated@ == self.spec_rotated().take(i as int),
            decreases n - i,
        {
            let idx = if i >= shift {
                i - shift
            } else {
                i + (n - shift)
            };
            proof {
                let k = i + n - shift;
                if i >= shift {
                    lemma_mod_add_multiples_vanish((i - shift) as int, n as int);
                    lemma_small_mod((i - shift) as nat, n as nat);
                } else {
                    lemma_small_mod(k as nat, n as nat);
                }
                assert(self.spec_rotated()[i as int] == self.rhythm@[idx as int]);
                assert(self.spec_rotated().take(i + 1) =~= self.spec_rotated().take(i as int).push(
                    self.rhythm@[idx as int],
                ));
            }
            rotated.push(self.rhythm[idx]);
            i = i + 1;
        }
        assert(self.spec_rotated().take(n as int) =~= self.spec_rotated());
        rotated
    }
}

/// A rotation of zero leaves a rhythm as it is.
pub proof fn lemma_rotate_zero(s: Seq<(bool, u8)>)
    ensures
        rotate_right(s, 0) == s,
{
    if s.len() > 0 {
        assert forall|i: int| 0 <= i < s.len() implies rotate_right(s, 0)[i] == s[i] by {
            lemma_small_mod(0, s.len());
            lemma_mod_add_multiples_vanish(i, s.len() as int);
            lemma_small_mod(i as nat, s.len());
        }
        assert(rotate_right(s, 0) =~= s);
    }
}

/// Rotations count modulo the rhythm's length: rotating by the length
/// leaves a rhythm as it is, and adding the length to a rotation changes
/// nothing.
pub proof fn lemma_rotate_modulo_length(s: Seq<(bool, u8)>, k: nat)
    ensures
        rotate_right(s, s.len()) == s,
        rotate_right(s, k + s.len()) == rotate_right(s, k),
{
    if s.len() > 0 {
        lemma_mod_self_0(s.len() as int);
        lemma_mod_add_multiples_vanish(k as int, s.len() as int);
        assert(rotate_right(s, s.len()) =~= rotate_right(s, 0));
        lemma_rotate_zero(s);
        assert(rotate_right(s, k + s.len()) =~= rotate_right(s, k));
    }
}

/// The events of all instruments' tracks, track after track.
pub open spec fn tracks_events(tracks: Seq<(Note, DrumTrack)>, step: int) -> Seq<TrackEvent>
    decreases tracks.len(),
{
    if tracks.len() == 0 {
        seq![]
    } else {
        tracks_events(tracks.drop_last(), step) + pattern_events(
            tracks.last().1.spec_rotated(),
            tracks.last().0.spec_midi_value() as u8,
            step,
        )
    }
}

/// The ticks of one pattern step: the ticks per quarter note divided among
/// the beats of a bar.
pub open spec fn step_ticks(ts: TimeSignature) -> int
    recommends
        ts.beats_per_bar > 0,
{
    (ts.ticks_per_quarter_note as int) / (ts.beats_per_bar as int)
}

/// A set of drum tracks, at most one per instrument.
pub struct DrumSequence {
    title: String,
    tracks: Vec<(Note, DrumTrack)>,
    time_signature: TimeSignature,
}

impl DrumSequence {
    pub closed spec fn spec_title(&self) -> Seq<char> {
        self.title@
    }

    /// The instruments with their tracks, in the order they were first added.
    pub closed spec fn spec_tracks(&self) -> Seq<(Note, DrumTrack)> {
        self.tracks@
    }

    pub closed spec fn spec_time_signature(&self) -> TimeSignature {
        self.time_signature
    }

    /// Each instrument is a valid note and has at most one track.
    pub open spec fn wf(&self) -> bool {
        &&& forall|i: int|
            0 <= i < self.spec_tracks().len() ==> (#[trigger] self.spec_tracks()[i]).0.wf()
        &&& forall|i: int, j: int|
            0 <= i < j < self.spec_tracks().len() ==> self.spec_tracks()[i].0
                != self.spec_tracks()[j].0
    }

    /// Creates a drum sequence with no tracks.
    pub fn new(title: &str, time_signature: TimeSignature) -> (r: Result<Self, OrdiseqError>)
        ensures
            r matches Ok(s) && s.wf() && s.spec_tracks().len() == 0 && s.spec_title() == title@
                && s.spec_time_signature() == time_signature,
    {
        Ok(DrumSequence { title: title.to_string(), tracks: Vec::new(), time_signature })
    }

    /// Adds a Euclidean rhythm of `pulses` hits over `steps` steps for an
    /// instrument, replacing the instrument's track if it has one.
    pub fn add_euclidean_track(
        &mut self,
        title: &str,
        instrument: Note,
        steps: usize,
        pulses: usize,
        rotation: usize,
        velocity: u8,
    )
        requires
            old(self).wf(),
            instrument.wf(),
        ensures
            final(self).wf(),
            final(self).spec_title() == old(self).spec_title(),
            final(self).spec_time_signature() == old(self).spec_time_signature(),
            exists|t: DrumTrack|
                {
                    &&& #[trigger] t.spec_rhythm() == euclidean_pattern(
                        steps as nat,
                        pulses as nat,
                        velocity,
                    )
                    &&& t.spec_rotation() == rotation
                    &&& t.spec_title() == title@
                    &&& if exists|i: int|
                        0 <= i < old(self).spec_tracks().len() && #[trigger] old(
                            self,
                        ).spec_tracks()[i].0 == instrument {
                        final(self).spec_tracks() == old(self).spec_tracks().update(
                            choose|i: int|
                                0 <= i < old(self).spec_tracks().len() && #[trigger] old(
                                    self,
                                ).spec_tracks()[i].0 == instrument,
                            (instrument, t),
                        )
                    } else {
                        final(self).spec_tracks() == old(self).spec_tracks().push((instrument, t))
                    }
                },
    {
        let rhythm = generate_euclidean_rhythm(steps, pulses, velocity, 0u8);
        assert(rhythm@ =~= euclidean_pattern(steps as nat, pulses as nat, velocity));
        let track = DrumTrack { title: title.to_string(), rhythm, rotation };
        let ghost t = track;
        let ghost s = self.tracks@;
        assert(s == old(self).spec_tracks());
        let mut i: usize = 0;
        while i < self.tracks.len()
            invariant
                s == self.tracks@,
                i <= s.len(),
                forall|j: int| 0 <= j < i ==> s[j].0 != instrument,
            ensures
                i <= s.len(),
                forall|j: int| 0 <= j < i ==> s[j].0 != instrument,
                i < s.len() ==> s[i as int].0 == instrument,
            decreases s.len() - i,
        {
            if self.tracks[i].0 == instrument {
                break;
            }
            i = i + 1;
        }
        if i < self.tracks.len() {
            proof {
                let c = choose|j: int| 0 <= j < s.len() && #[trigger] s[j].0 == instrument;
                if c != i {
                    assert(s[c].0 == s[i as int].0);
                }
            }
            self.tracks[i] = (instrument, track);
        } else {
            self.tracks.push((instrument, track));
        }
        proof {
            assert forall|a: int, b: int|
                0 <= a < b < self.tracks@.len() implies self.tracks@[a].0 != self.tracks@[b].0 by {
                if a != i && b != i {
                    assert(self.tracks@[a] == s[a] && self.tracks@[b] == s[b]);
                    assert(old(self).spec_tracks()[a].0 != old(self).spec_tracks()[b].0);
                } else if a == i {
                    assert(self.tracks@[b] == s[b]);
                    assert(old(self).spec_tracks()[a].0 != old(self).spec_tracks()[b].0);
                } else {
                    assert(self.tracks@[a] == s[a]);
                    if i < s.len() {
                        assert(old(self).spec_tracks()[a].0 != old(self).spec_tracks()[b].0);
                    }
                }
            }
            if exists|j: int|
                0 <= j < old(self).spec_tracks().len() && #[trigger] old(self).spec_tracks()[j].0
                    == instrument {
                let c = choose|j: int|
                    0 <= j < old(self).spec_tracks().len() && #[trigger] old(
                        self,
                    ).spec_tracks()[j].0 == instrument;
                assert(i < s.len());
                if c != i {
                    assert(old(self).spec_tracks()[c].0 != old(self).spec_tracks()[i as int].0);
                }
                assert(self.tracks@ == old(self).spec_tracks().update(c, (instrument, t)));
            } else {
                assert(i == s.len());
                assert(self.tracks@ == old(self).spec_tracks().push((instrument, t)));
            }
            assert(t.spec_rhythm() == euclidean_pattern(steps as nat, pulses as nat, velocity));
            assert forall|a: int| 0 <= a < self.tracks@.len() implies (
            #[trigger] self.tracks@[a]).0.wf() by {
                if a != i {
                    assert(self.tracks@[a] == s[a]);
                    assert(old(self).spec_tracks()[a].0.wf());
                }
            }
        }
    }

    /// Compiles the drum tracks to a single-track MIDI file.
    ///
    /// The track holds the title and the time signature, then each
    /// instrument's events in turn on the percussion channel: a hit at step
    /// `i` is a key-down `i` steps after the start of the instrument's block
    /// and a key-up half a step after it. The blocks are appended one after
    /// another, each timed from the end of the one before, not merged in
    /// time order.
    pub fn to_midi(&self) -> (r: MidiFile)
        requires
            self.wf(),
            self.spec_time_signature().beats_per_bar > 0,
            forall|i: int|
                0 <= i < self.spec_tracks().len() ==> (#[trigger] self.spec_tracks()[i]).1.spec_rhythm().len()
                    * step_ticks(self.spec_time_signature()) <= u32::MAX,
        ensures
            r.ticks_per_quarter_note == (self.spec_time_signature().ticks_per_quarter_note
                % 65536) as u16,
            r.tracks@.len() == 1,
            exists|name: Vec<u8>|
                {
                    &&& #[trigger] name@ == encode_utf8(self.spec_title())
                    &&& r.tracks@[0]@ == seq![
                        TrackEvent {
                            delta: 0,
                            kind: TrackEventKind::Meta(MetaMessage::TrackName(name)),
                        },
                        TrackEvent {
                            delta: 0,
                            kind: TrackEventKind::Meta(
                                MetaMessage::TimeSignature(
                                    self.spec_time_signature().beats_per_bar,
                                    self.spec_time_signature().beat_unit,
                                    CLOCKS_PER_CLICK,
                                    THIRTY_SECONDS_PER_QUARTER,
                                ),
                            ),
                        },
                    ] + tracks_events(self.spec_tracks(), step_ticks(self.spec_time_signature()))
                        + seq![
                        TrackEvent { delta: 0, kind: TrackEventKind::Meta(MetaMessage::EndOfTrack) },
                    ]
                },
    {
        let mut midi_track: Vec<TrackEvent> = Vec::new();
        let name = self.title.as_str().as_bytes_vec();
        let ghost name_view = name;
        midi_track.push(
            TrackEvent { delta: 0, kind: TrackEventKind::Meta(MetaMessage::TrackName(name)) },
        );
        midi_track.push(
            TrackEvent {
                delta: 0,
                kind: TrackEventKind::Meta(
                    MetaMessage::TimeSignature(
                        self.time_signature.beats_per_bar,
                        self.time_signature.beat_unit,
                        CLOCKS_PER_CLICK,
                        THIRTY_SECONDS_PER_QUARTER,
                    ),
                ),
            },
        );
        let step_duration: u32 = self.time_signature.ticks_per_quarter_note
            / (self.time_signature.beats_per_bar as u32);
        let ghost head = midi_track@;
        let ghost tracks = self.tracks@;
        let mut t: usize = 0;
        while t < self.tracks.len()
            invariant
                tracks == self.tracks@,
                self.wf(),
                t <= tracks.len(),
                step_duration == step_ticks(self.spec_time_signature()),
                forall|i: int|
                    0 <= i < tracks.len() ==> (#[trigger] self.spec_tracks()[i]).1.spec_rhythm().len()
                        * step_duration <= u32::MAX,
                midi_track@ == head + tracks_events(tracks.take(t as int), step_duration as int),
            decreases tracks.len() - t,
        {
            let instrument = self.tracks[t].0;
            let pattern = self.tracks[t].1.rotated_pattern();
            proof {
                assert(self.spec_tracks()[t as int].0.wf());
                assert(self.spec_tracks()[t as int].1.spec_rhythm().len() * step_duration
                    <= u32::MAX);
            }
            let midi_value = instrument.midi_value();
            push_pattern_events(&mut midi_track, &pattern, midi_value, step_duration);
            proof {
                assert(tracks.take(t + 1).drop_last() =~= tracks.take(t as int));
            }
            t = t + 1;
        }
        assert(tracks.take(tracks.len() as int) =~= tracks);
        midi_track.push(
            TrackEvent { delta: 0, kind: TrackEventKind::Meta(MetaMessage::EndOfTrack) },
        );
        assert(midi_track@ =~= head + tracks_events(tracks, step_duration as int) + seq![
            TrackEvent { delta: 0, kind: TrackEventKind::Meta(MetaMessage::EndOfTrack) },
        ]);
        assert(name_view@ == encode_utf8(self.spec_title()));
        let mut out: Vec<Vec<TrackEvent>> = Vec::new();
        out.push(midi_track);
        MidiFile {
            ticks_per_quarter_note: (self.time_signature.ticks_per_quarter_note % 65536) as u16,
            tracks: out,
        }
    }

    /// The title of the drum sequence.
    pub fn title(&self) -> (r: String)
        ensures
            r@ == self.spec_title(),
    {
        self.title.clone()
    }

    /// The time signature of the drum sequence.
    pub fn time_signature(&self) -> (r: TimeSignature)
        ensures
            r == self.spec_time_signature(),
    {
        self.time_signature
    }
}

/// Appends the events of one instrument's pattern to `track`.
fn push_pattern_events(track: &mut Vec<TrackEvent>, pattern: &Vec<(bool, u8)>, key: u8, step: u32)
    requires
        pattern@.len() * step <= u32::MAX,
    ensures
        final(track)@ == old(track)@ + pattern_events(pattern@, key, step as int),
{
    let ghost base = track@;
    let ghost p = pattern@;
    let mut previous_time: u32 = 0;
    let mut i: usize = 0;
    while i < pattern.len()
        invariant
            p == pattern@,
            i <= p.len(),
            p.len() * step <= u32::MAX,
            previous_time == last_release_time(p.take(i as int), step as int),
            previous_time <= i * step,
            track@ == base + pattern_events(p.take(i as int), key, step as int),
        decreases p.len() - i,
    {
        proof {
            assert(p.take(i + 1).drop_last() =~= p.take(i as int));
            assert(p.take(i + 1).last() == p[i as int]);
            assert((i + 1) * step <= p.len() * step) by (nonlinear_arith)
                requires
                    i < p.len(),
            ;
            assert(i * step <= (i + 1) * step) by (nonlinear_arith);
            assert(i * step + step / 2 <= (i + 1) * step) by (nonlinear_arith);
        }
        let (active, velocity) = pattern[i];
        if active {
            let current_time: u32 = if step == 0 {
                0
            } else {
                proof {
                    assert(i < p.len() * step) by (nonlinear_arith)
                        requires
                            i < p.len(),
                            step >= 1,
                    ;
                }
                (i as u32) * step
            };
            assert(current_time == i * step);
            let delta_time = current_time - previous_time;
            previous_time = current_time + step / 2;
            track.push(
                TrackEvent {
                    delta: delta_time,
                    kind: TrackEventKind::Midi {
                        channel: PERCUSSION_CHANNEL,
                        message: MidiMessage::NoteOn { key, vel: velocity },
                    },
                },
            );
            track.push(
                TrackEvent {
                    delta: step / 2,
                    kind: TrackEventKind::Midi {
                        channel: PERCUSSION_CHANNEL,
                        message: MidiMessage::NoteOff { key, vel: 0 },
                    },
                },
            );
        }
        i = i + 1;
    }
    assert(p.take(p.len() as int) =~= p);
}

} // verus!
