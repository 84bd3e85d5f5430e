use ordiseq::time::{calculate_tpqn, common_time, Time, TimeSignature};

#[test]
fn test_new_valid_time_signature() {
    let ts = TimeSignature::new("4/4", 96).unwrap();
    assert_eq!(
        ts,
        TimeSignature {
            beats_per_bar: 4,
            beat_unit: 4,
            ticks_per_quarter_note: 96
        }
    );
}

#[test]
fn test_new_valid_odd_time_signature() {
    let ts = TimeSignature::new("7/8", 96).unwrap();
    assert_eq!(
        ts,
        TimeSignature {
            beats_per_bar: 7,
            beat_unit: 8,
            ticks_per_quarter_note: 96
        }
    );
}

#[test]
fn test_tpqn_standard_time_signature() {
    let ts = TimeSignature::new("4/4", 96).unwrap();
    assert_eq!(calculate_tpqn(ts), Some(384));
}

#[test]
fn test_tpqn_eighth_note_time_signature() {
    let ts = TimeSignature::new("3/8", 96).unwrap();
    assert_eq!(calculate_tpqn(ts), Some(144));
}

#[test]
fn test_tpqn_half_note_time_signature() {
    let ts = TimeSignature::new("6/2", 96).unwrap();
    assert_eq!(calculate_tpqn(ts), Some(1152));
}

#[test]
fn test_tpqn_whole_note_time_signature() {
    let ts = TimeSignature::new("1/1", 96).unwrap();
    assert_eq!(calculate_tpqn(ts), Some(384));
}

#[test]
fn test_tpqn_sixteenth_note_time_signature() {
    let ts = TimeSignature::new("7/16", 96).unwrap();
    assert_eq!(calculate_tpqn(ts), Some(168));
}

#[test]
fn test_tpqn_invalid_time_signature_beat_unit_not_power_of_two() {
    let ts = TimeSignature {
        beats_per_bar: 4,
        beat_unit: 3,
        ticks_per_quarter_note: 96,
    };
    assert_eq!(calculate_tpqn(ts), None);
}

#[test]
fn test_tpqn_invalid_time_signature_zero_beats_per_bar() {
    let ts = TimeSignature {
        beats_per_bar: 0,
        beat_unit: 4,
        ticks_per_quarter_note: 96,
    };
    assert_eq!(calculate_tpqn(ts), None);
}

#[test]
fn test_tpqn_invalid_time_signature_zero_beat_unit() {
    let ts = TimeSignature {
        beats_per_bar: 4,
        beat_unit: 0,
        ticks_per_quarter_note: 96,
    };
    assert_eq!(calculate_tpqn(ts), None);
}

#[test]
fn test_new_invalid_format() {
    let result = TimeSignature::new("4-4", 96);
    assert!(result.is_err());
    assert_eq!(
        result.unwrap_err().to_string(),
        "Invalid time signature: Input must be in the format 'numerator/denominator'"
    );
}

#[test]
fn test_new_invalid_numerator() {
    let result = TimeSignature::new("a/4", 96);
    assert!(result.is_err());
    assert_eq!(
        result.unwrap_err().to_string(),
        "Invalid time signature: Numerator must be a valid number"
    );
}

#[test]
fn test_new_invalid_denominator() {
    let result = TimeSignature::new("4/b", 96);
    assert!(result.is_err());
    assert_eq!(
        result.unwrap_err().to_string(),
        "Invalid time signature: Denominator must be a valid number"
    );
}

#[test]
fn test_new_invalid_denominator_not_power_of_two() {
    let result = TimeSignature::new("4/3", 96);
    assert!(result.is_err());
    assert_eq!(
        result.unwrap_err().to_string(),
        "Invalid time signature: Denominator must be a power of two"
    );
}

#[test]
fn valid_signatures_round_trip() {
    for n in 1u8..=255 {
        for d in [1u8, 2, 4, 8, 16, 32, 64, 128] {
            let text = format!("{}/{}", n, d);
            let ts = TimeSignature::new(&text, 480).unwrap();
            assert_eq!(ts.beats_per_bar, n);
            assert_eq!(ts.beat_unit, d);
            assert_eq!(ts.ticks_per_quarter_note, 480);
        }
    }
}

#[test]
fn non_power_of_two_denominators_are_rejected() {
    for d in 0u8..=255 {
        if d.is_power_of_two() {
            continue;
        }
        let text = format!("3/{}", d);
        let err = TimeSignature::new(&text, 96).unwrap_err();
        assert_eq!(
            err.to_string(),
            "Invalid time signature: Denominator must be a power of two"
        );
    }
}

#[test]
fn parsing_edge_cases() {
    assert_eq!(TimeSignature::new("+3/+4", 96).unwrap().beat_unit, 4);
    assert_eq!(TimeSignature::new("255/128", 96).unwrap().beats_per_bar, 255);
    assert!(TimeSignature::new("256/4", 96).is_err());
    assert!(TimeSignature::new("4/4/4", 96).is_err());
    assert!(TimeSignature::new("", 96).is_err());
    assert!(TimeSignature::new("/4", 96).is_err());
    assert!(TimeSignature::new("4/", 96).is_err());
    assert!(TimeSignature::new("-4/4", 96).is_err());
    assert!(TimeSignature::new("4/0", 96).is_err());
}

#[test]
fn beat_time_in_common_time() {
    let ts = common_time();
    assert_eq!(ts.beat_time(1, 1), Time { ticks: 96 });
    assert_eq!(ts.beat_time(1, 2), Time { ticks: 48 });
    assert_eq!(ts.beat_time(2, 1), Time { ticks: 192 });
}

#[test]
fn beat_time_rounds_to_nearest() {
    let ts = TimeSignature::new("3/8", 10).unwrap();
    // A third of an eighth note at 10 ticks per quarter: 5/3 ticks.
    assert_eq!(ts.beat_time(1, 3), Time { ticks: 2 });
    // Half a tick rounds up.
    let ts = TimeSignature::new("4/4", 1).unwrap();
    assert_eq!(ts.beat_time(1, 2), Time { ticks: 1 });
}

#[test]
fn bar_time_of_signatures() {
    assert_eq!(common_time().bar_time(), Time { ticks: 384 });
    let ts = TimeSignature::new("7/8", 96).unwrap();
    assert_eq!(ts.bar_time(), Time { ticks: 336 });
    let ts = TimeSignature::new("3/2", 100).unwrap();
    assert_eq!(ts.bar_time(), Time { ticks: 600 });
}

#[test]
fn tpqn_that_does_not_fit_is_none() {
    let ts = TimeSignature::new("200/1", 96).unwrap();
    assert_eq!(calculate_tpqn(ts), None);
}

#[test]
fn time_arithmetic() {
    let t = Time { ticks: 10 };
    assert_eq!(t.add(5), Time { ticks: 15 });
    assert_eq!(t.sub(15), Time { ticks: 0 });
    assert_eq!(t.sub(4), Time { ticks: 6 });
    assert_eq!(t.mul(3), Time { ticks: 30 });
    assert_eq!(t.div(4), Time { ticks: 2 });
    assert_eq!(t.scale(1, 2), Time { ticks: 5 });
    assert_eq!(Time { ticks: 7 }.scale(1, 2), Time { ticks: 4 });
    let mut u = Time { ticks: 3 };
    u.sub_assign(5);
    assert_eq!(u, Time { ticks: 0 });
    u.add_assign(8);
    u.mul_assign(2);
    u.div_assign(4);
    assert_eq!(u, Time { ticks: 4 });
}

#[test]
fn signatures_print_as_fractions() {
    assert_eq!(common_time().to_string(), "4/4");
    assert_eq!(TimeSignature::new("12/8", 96).unwrap().to_string(), "12/8");
    assert_eq!(TimeSignature::new("+7/16", 96).unwrap().to_string(), "7/16");
}
