use audio_monitor::record::format_record;

fn fields(values: &[f32]) -> Vec<String> {
    values.iter().map(|v| format!("{:.1}", v)).collect()
}

#[test]
fn record_of_a_silent_block_with_five_bands() {
    let bands = fields(&[0.0, 0.0, 0.0, 0.0, 0.0]);
    assert_eq!(format_record(&format!("{:.1}", 0.0f32), &bands), "0.0,0.0,0.0,0.0,0.0,0.0\n");
}

#[test]
fn record_lists_loudness_first_and_bands_in_order() {
    let bands = fields(&[0.1, 0.25, 1.0, 0.96, 0.04]);
    assert_eq!(format_record("0.7", &bands), "0.7,0.1,0.2,1.0,1.0,0.0\n");
}

#[test]
fn record_with_twelve_bands() {
    let bands = fields(&[0.0, 0.1, 0.2, 0.3, 0.4, 0.5, 0.6, 0.7, 0.8, 0.9, 1.0, 0.5]);
    assert_eq!(
        format_record("0.3", &bands),
        "0.3,0.0,0.1,0.2,0.3,0.4,0.5,0.6,0.7,0.8,0.9,1.0,0.5\n"
    );
}

#[test]
fn record_without_bands_is_the_loudness_alone() {
    assert_eq!(format_record("0.5", &[]), "0.5\n");
}

#[test]
fn record_with_one_band() {
    assert_eq!(format_record("1.0", &["0.5".to_string()]), "1.0,0.5\n");
}

#[test]
fn record_keeps_each_field_as_given() {
    let bands = vec!["0.125".to_string(), String::new(), "1".to_string()];
    assert_eq!(format_record("", &bands), ",0.125,,1\n");
}

#[test]
fn record_ends_with_exactly_one_newline() {
    let record = format_record("0.0", &fields(&[0.0, 0.0]));
    assert!(record.ends_with('\n'));
    assert_eq!(record.matches('\n').count(), 1);
    assert_eq!(record.matches(',').count(), 2);
}
