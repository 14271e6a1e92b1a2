use euclidean_rhythms::render::rhythm_to_string;

#[test]
fn renders_onsets_and_rests() {
    assert_eq!(rhythm_to_string(&[true, false, false, true]), "x..x");
    assert_eq!(rhythm_to_string(&[false]), ".");
    assert_eq!(rhythm_to_string(&[true]), "x");
}

#[test]
fn renders_empty_rhythm_as_empty_text() {
    assert_eq!(rhythm_to_string(&[]), "");
}

#[test]
fn renders_one_character_for_each_step() {
    let rhythm: Vec<bool> = (0..25).map(|i| i % 3 == 0).collect();
    let text = rhythm_to_string(&rhythm);
    assert_eq!(text.len(), rhythm.len());
    for (step, c) in rhythm.iter().zip(text.chars()) {
        assert_eq!(c, if *step { 'x' } else { '.' });
    }
}
