//! MIDI track events as plain values, ready to hand to a MIDI file writer,
//! and the delta-time encoding of time-stamped events.
use vstd::prelude::*;

verus! {

/// A channel message that starts or stops a key.
#[derive(Debug, Clone, Copy, PartialEq, Eq)]
pub enum MidiMessage {
    NoteOn { key: u8, vel: u8 },
    NoteOff { key: u8, vel: u8 },
}

/// A meta event of a track.
#[derive(Debug, Clone, PartialEq, Eq)]
pub enum MetaMessage {
    /// The name of the track, as bytes.
    TrackName(Vec<u8>),
    /// Numerator, denominator, MIDI clocks per metronome click, and
    /// thirty-second notes per quarter note.
    TimeSignature(u8, u8, u8, u8),
    EndOfTrack,
}

/// What a track event does.
#[derive(Debug, Clone, PartialEq, Eq)]
pub enum TrackEventKind {
    Midi { channel: u8, message: MidiMessage },
    Meta(MetaMessage),
}

/// An event of a track, `delta` ticks after the one before it.
#[derive(Debug, Clone, PartialEq, Eq)]
pub struct TrackEvent {
    pub delta: u32,
    pub kind: TrackEventKind,
}

/// A single-track standard MIDI file with metrical timing.
#[derive(Debug, Clone, PartialEq, Eq)]
pub struct MidiFile {
    pub ticks_per_quarter_note: u16,
    pub tracks: Vec<Vec<TrackEvent>>,
}

/// The channel of melodic sequences.
pub const MELODY_CHANNEL: u8 = 0;

/// The channel reserved for percussion (channel 10, counted from one).
pub const PERCUSSION_CHANNEL: u8 = 9;

/// MIDI clocks per metronome click in the time signature event.
pub const CLOCKS_PER_CLICK: u8 = 24;

/// Thirty-second notes per quarter note in the time signature event.
pub const THIRTY_SECONDS_PER_QUARTER: u8 = 8;

/// Whether the absolute times of `s` never decrease.
pub open spec fn times_non_decreasing(s: Seq<(u32, MidiMessage)>) -> bool {
    forall|i: int, j: int| 0 <= i <= j < s.len() ==> s[i].0 <= s[j].0
}

/// The absolute time of the event before index `i`, zero for the first.
pub open spec fn previous_time(s: Seq<(u32, MidiMessage)>, i: int) -> int {
    if i == 0 {
        0
    } else {
        s[i - 1].0 as int
    }
}

/// Events on `channel` at the absolute times of `s`, each stamped with the
/// ticks since the one before.
pub open spec fn delta_encoded(s: Seq<(u32, MidiMessage)>, channel: u8) -> Seq<TrackEvent> {
    Seq::new(
        s.len(),
        |i: int|
            TrackEvent {
                delta: (s[i].0 - previous_time(s, i)) as u32,
                kind: TrackEventKind::Midi { channel, message: s[i].1 },
            },
    )
}

/// `s` with `e` placed after every event no later than it, and before the
/// later ones that end `s`.
pub open spec fn insert_by_time(s: Seq<(u32, MidiMessage)>, e: (u32, MidiMessage)) -> Seq<
    (u32, MidiMessage),
>
    decreases s.len(),
{
    if s.len() == 0 || s.last().0 <= e.0 {
        s.push(e)
    } else {
        insert_by_time(s.drop_last(), e).push(s.last())
    }
}

/// `s` sorted by absolute time; events at the same time keep their order.
pub open spec fn sort_by_time(s: Seq<(u32, MidiMessage)>) -> Seq<(u32, MidiMessage)>
    decreases s.len(),
{
    if s.len() == 0 {
        s
    } else {
        insert_by_time(sort_by_time(s.drop_last()), s.last())
    }
}

proof fn lemma_insert_by_time_multiset(s: Seq<(u32, MidiMessage)>, e: (u32, MidiMessage))
    ensures
        insert_by_time(s, e).to_multiset() == s.to_multiset().insert(e),
    decreases s.len(),
{
    broadcast use vstd::seq_lib::to_multiset_build, vstd::multiset::group_multiset_axioms;

    if s.len() == 0 || s.last().0 <= e.0 {
    } else {
        lemma_insert_by_time_multiset(s.drop_last(), e);
        assert(s.drop_last().push(s.last()) =~= s);
        assert(insert_by_time(s, e).to_multiset() =~= s.to_multiset().insert(e));
    }
}

/// Sorting by time only reorders events: the sorted sequence holds each
/// event as often as the unsorted one.
pub proof fn lemma_sort_by_time_permutes(s: Seq<(u32, MidiMessage)>)
    ensures
        sort_by_time(s).to_multiset() == s.to_multiset(),
    decreases s.len(),
{
    broadcast use vstd::seq_lib::to_multiset_build;

    if s.len() > 0 {
        lemma_sort_by_time_permutes(s.drop_last());
        lemma_insert_by_time_multiset(sort_by_time(s.drop_last()), s.last());
        assert(s.drop_last().push(s.last()) =~= s);
    }
}

proof fn lemma_insert_at(s: Seq<(u32, MidiMessage)>, e: (u32, MidiMessage), k: int)
    requires
        0 <= k <= s.len(),
        forall|j: int| k <= j < s.len() ==> s[j].0 > e.0,
        k == 0 || s[k - 1].0 <= e.0,
    ensures
        insert_by_time(s, e) == s.insert(k, e),
    decreases s.len() - k,
{
    if k == s.len() {
        assert(s.push(e) =~= s.insert(k, e));
    } else {
        lemma_insert_at(s.drop_last(), e, k);
        assert(s.drop_last().insert(k, e).push(s.last()) =~= s.insert(k, e));
    }
}

/// Sorts time-stamped events by time, keeping the order of events at the
/// same time.
pub fn stable_sort_by_time(events: &Vec<(u32, MidiMessage)>) -> (r: Vec<(u32, MidiMessage)>)
    ensures
        r@ == sort_by_time(events@),
        times_non_decreasing(r@),
{
    let mut out: Vec<(u32, MidiMessage)> = Vec::new();
    let mut i: usize = 0;
    while i < events.len()
        invariant
            i <= events@.len(),
            out@ == sort_by_time(events@.take(i as int)),
            times_non_decreasing(out@),
        decreases events@.len() - i,
    {
        let e = events[i];
        let mut k: usize = out.len();
        while k > 0 && out[k - 1].0 > e.0
            invariant
                k <= out@.len(),
                forall|j: int| k <= j < out@.len() ==> out@[j].0 > e.0,
            decreases k,
        {
            k = k - 1;
        }
        proof {
            lemma_insert_at(out@, e, k as int);
            assert(events@.take(i + 1).drop_last() =~= events@.take(i as int));
            assert(events@.take(i + 1).last() == e);
        }
        let ghost before = out@;
        out.insert(k, e);
        proof {
            assert forall|a: int, b: int| 0 <= a <= b < out@.len() implies out@[a].0 <= out@[b].0 by {
                if a < k && b < k {
                    assert(out@[a] == before[a] && out@[b] == before[b]);
                } else if a < k && b == k {
                    assert(out@[a] == before[a]);
                    assert(before[a].0 <= before[k - 1].0);
                } else if a < k && b > k {
                    assert(out@[a] == before[a] && out@[b] == before[b - 1]);
                } else if a == k && b > k {
                    assert(out@[b] == before[b - 1]);
                } else if a > k {
                    assert(out@[a] == before[a - 1] && out@[b] == before[b - 1]);
                }
            }
        }
        i = i + 1;
    }
    assert(events@.take(events@.len() as int) =~= events@);
    out
}

/// Appends the events of `sorted` to `track`, on `channel`, each stamped
/// with the ticks since the one before.
pub fn push_delta_encoded(track: &mut Vec<TrackEvent>, sorted: &Vec<(u32, MidiMessage)>, channel: u8)
    requires
        times_non_decreasing(sorted@),
    ensures
        final(track)@ == old(track)@ + delta_encoded(sorted@, channel),
{
    let ghost base = track@;
    let mut last_time_ticks: u32 = 0;
    let mut i: usize = 0;
    while i < sorted.len()
        invariant
            i <= sorted@.len(),
            times_non_decreasing(sorted@),
            last_time_ticks == previous_time(sorted@, i as int),
            track@ == base + delta_encoded(sorted@, channel).take(i as int),
        decreases sorted@.len() - i,
    {
        let (time, message) = sorted[i];
        let delta = time - last_time_ticks;
        track.push(TrackEvent { delta, kind: TrackEventKind::Midi { channel, message } });
        last_time_ticks = time;
        proof {
            assert(delta_encoded(sorted@, channel).take(i + 1) =~= delta_encoded(
                sorted@,
                channel,
            ).take(i as int).push(delta_encoded(sorted@, channel)[i as int]));
        }
        i = i + 1;
    }
    assert(delta_encoded(sorted@, channel).take(sorted@.len() as int) =~= delta_encoded(
        sorted@,
        channel,
    ));
}

} // verus!
