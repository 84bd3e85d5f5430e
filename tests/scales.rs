use ordiseq::scales::{
    filter_scales, find_scales_by_origin, find_scales_with_intervals_greater_than,
    find_scales_with_up_down_intervals, get_scale, get_scale_names, Scale, ScaleCatalog,
    ScaleOmnibusError,
};

const SCALES_YAML: &str = "
- name: Major
  intervals: [2, 2, 1, 2, 2, 2, 1]
  notes: [0, 2, 4, 5, 7, 9, 11]
- name: Bebop Major
  intervals: [2, 2, 1, 2, 1, 1, 2, 1]
  notes: [0, 2, 4, 5, 7, 8, 9, 11]
- name: 'Superlocrian #6'
  intervals: [1, 2, 1, 2, 3, 1, 2]
  notes: [0, 1, 3, 4, 6, 9, 10]
- name: Messiaen 2nd Mode
  intervals: [1, 2, 1, 2, 1, 2, 1, 2]
  notes: [0, 1, 3, 4, 6, 7, 9, 10]
- name: Messiaen 2nd Mode
  intervals: [2, 1, 2, 1, 2, 1, 2, 1]
  notes: [0, 2, 3, 5, 6, 8, 9, 11]
- name: Enigmatic
  intervals_ascending: [1, 3, 2, 2, 2, 1, 1]
  intervals_descending: [1, 3, 1, 3, 2, 1, 1]
  notes_ascending: [0, 1, 4, 6, 8, 10, 11]
  notes_descending: [0, 1, 4, 5, 8, 10, 11]
- name: Aeolian Major
  intervals: [2, 2, 1, 2, 1, 2, 2]
  notes: [0, 2, 4, 5, 7, 8, 10]
- name: 'Major Pentatonic b7 #9'
  intervals: [3, 1, 3, 3, 2]
  notes: [0, 3, 4, 7, 10]
- name: Chromatic
  intervals: [1, 1, 1, 1, 1, 1, 1, 1, 1, 1, 1, 1]
  notes: [0, 1, 2, 3, 4, 5, 6, 7, 8, 9, 10, 11]
- name: Niavent
  intervals: [2, 1, 3, 1, 1, 3, 1]
  notes: [0, 2, 3, 6, 7, 8, 11]
  origin: Egypt
- intervals: [1, 1]
";

fn catalog() -> ScaleCatalog {
    ScaleCatalog::from_yaml(SCALES_YAML).unwrap()
}

#[test]
fn test_get_scale() {
    let scales = catalog();
    let bebop_major = get_scale(&scales, "BeBop majoR").unwrap();
    assert_eq!(bebop_major.name, "Bebop Major");
    assert_eq!(bebop_major.intervals, Some(vec![2, 2, 1, 2, 1, 1, 2, 1]));
    assert_eq!(bebop_major.notes, Some(vec![0, 2, 4, 5, 7, 8, 9, 11]));
    assert_eq!(bebop_major.notes_ascending, None);
    assert_eq!(bebop_major.intervals_ascending, None);
    assert_eq!(bebop_major.notes_descending, None);
    assert_eq!(bebop_major.intervals_descending, None);
}

#[test]
fn test_edge_name() {
    let scales = catalog();
    let superlocrian = get_scale(&scales, "superlocrian #6").unwrap();
    assert_eq!(superlocrian.name, "Superlocrian #6");
    assert_eq!(superlocrian.intervals, Some(vec![1, 2, 1, 2, 3, 1, 2]));
    assert_eq!(superlocrian.notes, Some(vec![0, 1, 3, 4, 6, 9, 10]));
    assert_eq!(superlocrian.notes_ascending, None);
    assert_eq!(superlocrian.intervals_ascending, None);
    assert_eq!(superlocrian.notes_descending, None);
    assert_eq!(superlocrian.intervals_descending, None);
}

#[test]
fn test_conflict_name() {
    let scales = catalog();
    let messiaen_2nd_one = get_scale(&scales, "Messiaen 2nd Mode").unwrap();
    let messiaen_2nd_two = get_scale(&scales, "Messiaen 2nd Mode (1)").unwrap();
    assert_eq!(messiaen_2nd_one.name, "Messiaen 2nd Mode");
    assert_eq!(messiaen_2nd_two.name, "Messiaen 2nd Mode (1)");
}

#[test]
fn test_notes_ascending() {
    let scales = catalog();
    let enigmatic = get_scale(&scales, "Enigmatic").unwrap();
    assert_eq!(enigmatic.name, "Enigmatic");
    assert_eq!(enigmatic.intervals, None);
    assert_eq!(
        enigmatic.intervals_ascending,
        Some(vec![1, 3, 2, 2, 2, 1, 1])
    );
    assert_eq!(
        enigmatic.intervals_descending,
        Some(vec![1, 3, 1, 3, 2, 1, 1])
    );
    assert_eq!(enigmatic.notes_ascending, Some(vec![0, 1, 4, 6, 8, 10, 11]));
    assert_eq!(
        enigmatic.notes_descending,
        Some(vec![0, 1, 4, 5, 8, 10, 11])
    );
    assert_eq!(enigmatic.notes, None);
}

#[test]
fn test_filter_scales_by_name() {
    let scales = catalog();
    let filtered_scales =
        filter_scales(&scales, |scale: &Scale| scale.name.to_lowercase().contains("major")).unwrap();

    let bebop_major = get_scale(&scales, "Bebop major").unwrap();
    let aeolian_major = get_scale(&scales, "Aeolian Major").unwrap();
    let major_pentatonic = get_scale(&scales, "Major Pentatonic b7 #9").unwrap();

    println!("{filtered_scales:?}");
    assert!(filtered_scales.contains(bebop_major));
    assert!(filtered_scales.contains(aeolian_major));
    assert!(filtered_scales.contains(major_pentatonic));
}

#[test]
fn test_filter_scales_by_number_of_intervals() {
    let scales = catalog();
    let filtered_scales = filter_scales(&scales, |scale: &Scale| {
        scale
            .intervals
            .as_ref()
            .map_or(false, |intervals| intervals.len() == 12)
    })
    .unwrap();
    assert_eq!(
        filtered_scales.len(),
        1,
        "There should only be one scale with 12 intervals (chromatic)."
    );
    assert_eq!(&filtered_scales[0], get_scale(&scales, "Chromatic").unwrap());
}

#[test]
fn test_find_scales_with_intervals_greater_than() {
    let scales = catalog();
    let filtered_scales = find_scales_with_intervals_greater_than(&scales, 5).unwrap();
    assert!(
        !filtered_scales.is_empty(),
        "No scales found with >5 intervals"
    );
    for scale in &filtered_scales {
        println!("Scale with >5 intervals: {:?}", scale.name);
    }
}

#[test]
fn test_find_scales_by_origin() {
    let scales = catalog();
    let filtered_scales = find_scales_by_origin(&scales, "Egypt").unwrap();
    assert!(
        !filtered_scales.is_empty(),
        "No scales found originating from Egypt"
    );
    for scale in &filtered_scales {
        println!("Scale from Egypt: {:?}", scale.name);
    }
}

#[test]
fn test_find_scales_with_up_down_intervals() {
    let scales = catalog();
    let filtered_scales = find_scales_with_up_down_intervals(&scales).unwrap();

    assert!(
        !filtered_scales.is_empty(),
        "No scales found with different ascending and descending intervals"
    );

    for scale in &filtered_scales {
        assert_eq!(scale.intervals, None);
        assert_eq!(scale.notes, None);
    }
}

#[test]
fn names_are_lowercase_keys() {
    let scales = catalog();
    let names = get_scale_names(&scales);
    assert_eq!(names.len(), 10);
    assert!(names.contains(&"major".to_string()));
    assert!(names.contains(&"superlocrian #6".to_string()));
    assert!(names.contains(&"messiaen 2nd mode (1)".to_string()));
}

#[test]
fn lookups_and_errors() {
    let scales = catalog();
    let missing = get_scale(&scales, "Nope").unwrap_err();
    assert_eq!(
        missing,
        ScaleOmnibusError::ScaleNotFoundError("Nope".to_string())
    );
    assert_eq!(missing.to_string(), "Scale not found: Nope");
    assert!(matches!(
        ScaleCatalog::from_yaml("name: [unclosed"),
        Err(ScaleOmnibusError::InvalidYaml)
    ));
    let big = find_scales_with_intervals_greater_than(&scales, 11).unwrap();
    assert_eq!(big.len(), 1);
    assert_eq!(big[0].name, "Chromatic");
    let egypt = find_scales_by_origin(&scales, "eGyPt").unwrap();
    assert_eq!(egypt.len(), 1);
    assert_eq!(egypt[0].name, "Niavent");
}

#[test]
fn repeated_names_count_up() {
    let mut scales = ScaleCatalog::new();
    for _ in 0..12 {
        let scale = get_scale(&catalog(), "Major").unwrap().duplicate();
        scales.add_scale(scale);
    }
    assert_eq!(get_scale(&scales, "major (11)").unwrap().name, "Major (11)");
    assert_eq!(get_scale_names(&scales).len(), 12);
}

#[test]
fn test_get_scale_names() {
    let scales = catalog();
    let names = get_scale_names(&scales);
    assert!(names.contains(&"major".to_string()));
    assert!(names.contains(&"superlocrian #6".to_string()));
}

#[test]
fn from_scales_files_in_order() {
    let base = catalog();
    let major = get_scale(&base, "major").unwrap().duplicate();
    let chromatic = get_scale(&base, "chromatic").unwrap().duplicate();
    let scales = ScaleCatalog::from_scales(vec![major.duplicate(), chromatic, major]);
    assert_eq!(
        get_scale_names(&scales),
        vec!["major".to_string(), "chromatic".to_string(), "major (1)".to_string()]
    );
    assert_eq!(get_scale(&scales, "Major (1)").unwrap().name, "Major (1)");
}
