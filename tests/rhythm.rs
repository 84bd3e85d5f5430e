use ordiseq::rhythm::generate_euclidean_rhythm;

#[test]
fn test_even_distribution() {
    let steps = 8;
    let pulses = 3;
    let velocity = 0.8;

    let result = generate_euclidean_rhythm(steps, pulses, velocity, 0.0);
    let expected = vec![
        (true, 0.8),
        (false, 0.0),
        (false, 0.0),
        (true, 0.8),
        (false, 0.0),
        (false, 0.0),
        (true, 0.8),
        (false, 0.0),
    ];

    assert_eq!(result, expected);
}

#[test]
fn test_full_pulses() {
    let steps = 8;
    let pulses = 8;
    let velocity = 1.0;

    let result = generate_euclidean_rhythm(steps, pulses, velocity, 0.0);
    let expected = vec![
        (true, 1.0),
        (true, 1.0),
        (true, 1.0),
        (true, 1.0),
        (true, 1.0),
        (true, 1.0),
        (true, 1.0),
        (true, 1.0),
    ];

    assert_eq!(result, expected);
}

#[test]
fn test_no_pulses() {
    let steps = 8;
    let pulses = 0;
    let velocity = 0.5;

    let result = generate_euclidean_rhythm(steps, pulses, velocity, 0.0);
    let expected = vec![
        (false, 0.0),
        (false, 0.0),
        (false, 0.0),
        (false, 0.0),
        (false, 0.0),
        (false, 0.0),
        (false, 0.0),
        (false, 0.0),
    ];

    assert_eq!(result, expected);
}

#[test]
fn test_single_pulse() {
    let steps = 8;
    let pulses = 1;
    let velocity = 0.7;

    let result = generate_euclidean_rhythm(steps, pulses, velocity, 0.0);
    let expected = vec![
        (true, 0.7),
        (false, 0.0),
        (false, 0.0),
        (false, 0.0),
        (false, 0.0),
        (false, 0.0),
        (false, 0.0),
        (false, 0.0),
    ];

    assert_eq!(result, expected);
}

#[test]
fn test_more_pulses_than_steps() {
    let steps = 8;
    let pulses = 10;
    let velocity = 0.9;

    let result = generate_euclidean_rhythm(steps, pulses, velocity, 0.0);
    let expected = vec![
        (true, 0.9),
        (true, 0.9),
        (true, 0.9),
        (true, 0.9),
        (true, 0.9),
        (true, 0.9),
        (true, 0.9),
        (true, 0.9),
    ];

    assert_eq!(result, expected);
}

#[test]
fn test_edge_case_one_step() {
    let steps = 1;
    let pulses = 1;
    let velocity = 1.0;

    let result = generate_euclidean_rhythm(steps, pulses, velocity, 0.0);
    let expected = vec![(true, 1.0)];

    assert_eq!(result, expected);
}

#[test]
fn zero_steps_give_an_empty_rhythm() {
    for pulses in [0usize, 1, 5, 100] {
        let result = generate_euclidean_rhythm(0, pulses, 0.6, 0.0);
        assert!(result.is_empty());
    }
}

#[test]
fn five_of_eight() {
    let result = generate_euclidean_rhythm(8, 5, 3u8, 0u8);
    let hits: Vec<bool> = result.iter().map(|s| s.0).collect();
    assert_eq!(hits, vec![true, false, true, false, true, true, false, true]);
    assert_eq!(result.iter().filter(|s| s.0).count(), 5);
}
