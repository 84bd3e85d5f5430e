use ordiseq::drum::{DrumSequence, DrumTrack};
use ordiseq::error::OrdiseqError;
use ordiseq::midi::{MetaMessage, MidiMessage, TrackEvent, TrackEventKind};
use ordiseq::note::{HasMidiValue, Note, NoteOrRest, Transposable};
use ordiseq::sequence::{Sequence, SequenceElement, SequenceNote};
use ordiseq::time::{common_time, Time, TimeSignature};
use ordiseq::util::{char_is_whitespace, make_filename};

fn note(pitch_class: u8, octave: u8) -> Note {
    Note {
        pitch_class,
        octave,
    }
}

fn midi(kind: &TrackEventKind) -> Option<MidiMessage> {
    match kind {
        TrackEventKind::Midi { message, .. } => Some(*message),
        _ => None,
    }
}

#[test]
fn midi_values() {
    assert_eq!(note(0, 4).midi_value(), 60);
    assert_eq!(note(9, 4).midi_value(), 69);
    assert_eq!(note(11, 15).midi_value(), 203);
    assert_eq!(note(0, 0).midi_value(), 12);
}

#[test]
fn note_transposition() {
    assert_eq!(note(0, 4).transpose(12), note(0, 5));
    assert_eq!(note(11, 4).transpose(1), note(0, 5));
    assert_eq!(note(0, 4).transpose(-1), note(11, 3));
    assert_eq!(note(2, 0).transpose(-5), note(0, 0));
    assert_eq!(note(10, 15).transpose(5), note(11, 15));
}

#[test]
fn load_places_notes_after_full_lengths() {
    let mut seq = Sequence::new("load", common_time()).unwrap();
    let items = vec![
        (NoteOrRest::Note(note(0, 4)), 2),
        (NoteOrRest::Rest, 2),
        (NoteOrRest::Note(note(4, 4)), 4),
    ];
    assert!(seq.load(&items).is_ok());
    assert_eq!(seq.start_times(), vec![0, 384]);
    match seq.get(0) {
        Some(SequenceElement::Note(n)) => {
            assert_eq!(n.note, note(0, 4));
            assert_eq!(n.duration, Time { ticks: 96 });
            assert_eq!(n.velocity, 89);
        }
        _ => panic!("expected a note at tick 0"),
    }
    match seq.get(384) {
        Some(SequenceElement::Note(n)) => {
            assert_eq!(n.note, note(4, 4));
            assert_eq!(n.duration, Time { ticks: 192 });
        }
        _ => panic!("expected a note at tick 384"),
    }
    assert!(seq.get(192).is_none());
}

#[test]
fn adding_at_a_taken_time_replaces() {
    let mut seq = Sequence::new("replace", common_time()).unwrap();
    seq.add_note(Time { ticks: 10 }, note(0, 4), 100, Time { ticks: 5 });
    seq.add_note(Time { ticks: 10 }, note(7, 4), 50, Time { ticks: 8 });
    seq.add_note(Time { ticks: 20 }, NoteOrRest::Rest, 50, Time { ticks: 8 });
    assert_eq!(seq.start_times(), vec![10]);
    match seq.get(10) {
        Some(SequenceElement::Note(n)) => {
            assert_eq!(
                *n,
                SequenceNote {
                    note: note(7, 4),
                    velocity: 50,
                    duration: Time { ticks: 8 }
                }
            );
        }
        _ => panic!("expected a note"),
    }
}

#[test]
fn compiled_events_are_in_time_order() {
    let mut seq = Sequence::new("order", common_time()).unwrap();
    seq.add_note(Time { ticks: 0 }, note(0, 4), 100, Time { ticks: 500 });
    seq.add_chord(
        Time { ticks: 96 },
        vec![
            (note(4, 4), 90, Time { ticks: 50 }),
            (note(7, 4), 80, Time { ticks: 10 }),
        ],
    );
    seq.add_note(Time { ticks: 200 }, note(2, 5), 70, Time { ticks: 0 });
    let file = seq.to_midi();
    assert_eq!(file.ticks_per_quarter_note, 384);
    assert_eq!(file.tracks.len(), 1);
    let track = &file.tracks[0];
    assert_eq!(
        track[0],
        TrackEvent {
            delta: 0,
            kind: TrackEventKind::Meta(MetaMessage::TimeSignature(4, 4, 24, 8))
        }
    );
    assert_eq!(
        track[track.len() - 1],
        TrackEvent {
            delta: 0,
            kind: TrackEventKind::Meta(MetaMessage::EndOfTrack)
        }
    );
    let events: Vec<(u32, MidiMessage)> = track[1..track.len() - 1]
        .iter()
        .map(|e| (e.delta, midi(&e.kind).unwrap()))
        .collect();
    assert_eq!(
        events,
        vec![
            (0, MidiMessage::NoteOn { key: 60, vel: 100 }),
            (96, MidiMessage::NoteOn { key: 64, vel: 90 }),
            (0, MidiMessage::NoteOn { key: 67, vel: 80 }),
            (10, MidiMessage::NoteOff { key: 67, vel: 0 }),
            (40, MidiMessage::NoteOff { key: 64, vel: 0 }),
            (54, MidiMessage::NoteOn { key: 74, vel: 70 }),
            (0, MidiMessage::NoteOff { key: 74, vel: 0 }),
            (300, MidiMessage::NoteOff { key: 60, vel: 0 }),
        ]
    );
    let mut now = 0u64;
    for (delta, _) in &events {
        now += *delta as u64;
    }
    assert_eq!(now, 500);
}

#[test]
fn ppq_falls_back_for_unsupported_units() {
    let seq = Sequence::new("ppq", TimeSignature::new("3/32", 96).unwrap()).unwrap();
    assert_eq!(seq.to_midi().ticks_per_quarter_note, 96);
}

#[test]
fn transposing_a_chord_fails_and_keeps_the_sequence() {
    let mut seq = Sequence::new("chord", common_time()).unwrap();
    seq.add_note(Time { ticks: 0 }, note(0, 4), 100, Time { ticks: 5 });
    seq.add_chord(Time { ticks: 10 }, vec![(note(4, 4), 90, Time { ticks: 5 })]);
    let result = seq.transpose(3);
    assert_eq!(
        result.unwrap_err(),
        OrdiseqError::ChordTranspositionUnsupported
    );
    assert_eq!(
        OrdiseqError::ChordTranspositionUnsupported.to_string(),
        "Chord transposition is not supported yet"
    );
    assert_eq!(seq.start_times(), vec![0, 10]);
    match seq.get(0) {
        Some(SequenceElement::Note(n)) => assert_eq!(n.note, note(0, 4)),
        _ => panic!("expected the original note"),
    }
}

#[test]
fn transposing_up_an_octave_keeps_pitch_classes() {
    let mut seq = Sequence::new("octave", common_time()).unwrap();
    seq.add_note(Time { ticks: 0 }, note(0, 4), 100, Time { ticks: 5 });
    seq.add_note(Time { ticks: 10 }, note(11, 2), 90, Time { ticks: 5 });
    let up = seq.transpose(12).unwrap();
    assert_eq!(up.title(), "octave");
    for (t, expected) in [(0u32, note(0, 5)), (10, note(11, 3))] {
        match up.get(t) {
            Some(SequenceElement::Note(n)) => assert_eq!(n.note, expected),
            _ => panic!("expected a note"),
        }
    }
    let back = up.transpose(-7).unwrap().transpose(7).unwrap();
    match back.get(10) {
        Some(SequenceElement::Note(n)) => assert_eq!(n.note, note(11, 3)),
        _ => panic!("expected a note"),
    }
}

#[test]
fn rotation_of_zero_and_of_the_length() {
    let rhythm = vec![(true, 100u8), (false, 0), (false, 0), (true, 90), (false, 0)];
    let plain = DrumTrack::new("t", rhythm.clone(), 0);
    assert_eq!(plain.rotated_pattern(), rhythm);
    let full = DrumTrack::new("t", rhythm.clone(), rhythm.len());
    assert_eq!(full.rotated_pattern(), rhythm);
    let one = DrumTrack::new("t", rhythm.clone(), 1);
    assert_eq!(
        one.rotated_pattern(),
        vec![(false, 0), (true, 100), (false, 0), (false, 0), (true, 90)]
    );
    let seven = DrumTrack::new("t", rhythm.clone(), 7);
    assert_eq!(seven.rotated_pattern(), DrumTrack::new("t", rhythm, 2).rotated_pattern());
    assert!(DrumTrack::new("t", vec![], 3).rotated_pattern().is_empty());
}

#[test]
fn drum_sequence_compiles_track_by_track() {
    let ts = TimeSignature::new("3/4", 96).unwrap();
    let mut drums = DrumSequence::new("Drums", ts).unwrap();
    drums.add_euclidean_track("Kick", note(0, 2), 4, 2, 0, 100);
    drums.add_euclidean_track("Snare", note(2, 2), 2, 1, 1, 80);
    drums.add_euclidean_track("Kick again", note(0, 2), 4, 1, 0, 90);
    assert_eq!(drums.title(), "Drums");
    assert_eq!(drums.time_signature(), ts);
    let file = drums.to_midi();
    assert_eq!(file.ticks_per_quarter_note, 96);
    let track = &file.tracks[0];
    assert_eq!(
        track[0].kind,
        TrackEventKind::Meta(MetaMessage::TrackName(b"Drums".to_vec()))
    );
    assert_eq!(
        track[1].kind,
        TrackEventKind::Meta(MetaMessage::TimeSignature(3, 4, 24, 8))
    );
    // Steps last 96 / 3 = 32 ticks; key-ups come 16 ticks after key-downs.
    let events: Vec<(u32, u8, MidiMessage)> = track[2..track.len() - 1]
        .iter()
        .map(|e| match &e.kind {
            TrackEventKind::Midi { channel, message } => (e.delta, *channel, *message),
            _ => panic!("expected a channel message"),
        })
        .collect();
    assert_eq!(
        events,
        vec![
            (0, 9, MidiMessage::NoteOn { key: 36, vel: 90 }),
            (16, 9, MidiMessage::NoteOff { key: 36, vel: 0 }),
            (32, 9, MidiMessage::NoteOn { key: 38, vel: 80 }),
            (16, 9, MidiMessage::NoteOff { key: 38, vel: 0 }),
        ]
    );
    assert_eq!(
        track[track.len() - 1].kind,
        TrackEventKind::Meta(MetaMessage::EndOfTrack)
    );
}

#[test]
fn filenames_are_sanitized() {
    assert_eq!(make_filename("Jingle Bells", "mid"), "Jingle_Bells.mid");
    assert_eq!(make_filename("a/b c", ""), "a-b_c");
    assert_eq!(make_filename("Drums test1...", ".mid"), "Drums_test1.mid");
    assert_eq!(make_filename("what?*!", "txt"), "what.txt");
    assert_eq!(make_filename("Ünïcödé", "mid"), "Ünïcödé.mid");
}

#[test]
fn drum_hits_land_on_their_steps() {
    let mut drums = DrumSequence::new("Steps", common_time()).unwrap();
    drums.add_euclidean_track("Hat", note(6, 2), 2, 2, 0, 100);
    let file = drums.to_midi();
    let track = &file.tracks[0];
    assert_eq!(track.len(), 3 + 4);
    // Steps last 96 / 4 = 24 ticks: key-downs at 0 and 24, key-ups at 12 and 36.
    let mut now = 0u32;
    let mut times = vec![];
    for e in &track[2..track.len() - 1] {
        now += e.delta;
        times.push((now, midi(&e.kind).unwrap()));
    }
    assert_eq!(
        times,
        vec![
            (0, MidiMessage::NoteOn { key: 42, vel: 100 }),
            (12, MidiMessage::NoteOff { key: 42, vel: 0 }),
            (24, MidiMessage::NoteOn { key: 42, vel: 100 }),
            (36, MidiMessage::NoteOff { key: 42, vel: 0 }),
        ]
    );
}

#[test]
fn whitespace_matches_the_standard_library() {
    for u in 0u32..=0x10ffff {
        if let Some(c) = char::from_u32(u) {
            assert_eq!(char_is_whitespace(c), c.is_whitespace(), "U+{:04X}", u);
        }
    }
    assert_eq!(make_filename("a\u{3000}b\tc\u{85}d", ""), "a_b_c_d");
}
