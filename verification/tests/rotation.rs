use euclidean_rhythms::generator::euclidean_rhythm;
use euclidean_rhythms::render::rhythm_to_string;
use euclidean_rhythms::rotation::rotate_rhythm;

fn steps_of(text: &str) -> Vec<bool> {
    text.chars().map(|c| c == 'x').collect()
}

fn onsets_in(rhythm: &[bool]) -> usize {
    rhythm.iter().filter(|&&step| step).count()
}

#[test]
fn rotate_by_one() {
    let rhythm = steps_of("x..x..x.");
    assert_eq!(rhythm_to_string(&rotate_rhythm(&rhythm, 1)), "..x..x.x");
}

#[test]
fn rotate_is_a_left_shift() {
    let rhythm = vec![true, false, false];
    assert_eq!(rotate_rhythm(&rhythm, 0), vec![true, false, false]);
    assert_eq!(rotate_rhythm(&rhythm, 1), vec![false, false, true]);
    assert_eq!(rotate_rhythm(&rhythm, 2), vec![false, true, false]);
}

#[test]
fn rotate_empty_rhythm() {
    assert_eq!(rotate_rhythm(&[], 0), Vec::<bool>::new());
    assert_eq!(rotate_rhythm(&[], 7), Vec::<bool>::new());
    assert_eq!(rotate_rhythm(&[], usize::MAX), Vec::<bool>::new());
}

#[test]
fn rotate_reduces_large_offsets() {
    let rhythm = euclidean_rhythm(3, 8);
    assert_eq!(rhythm_to_string(&rotate_rhythm(&rhythm, 9)), ".x.x...x");
    assert_eq!(rhythm_to_string(&rotate_rhythm(&rhythm, 1_000_003)), ".x...x.x");
    assert_eq!(
        rotate_rhythm(&rhythm, usize::MAX),
        rotate_rhythm(&rhythm, usize::MAX % 8)
    );
}

#[test]
fn rotate_leaves_the_input_alone() {
    let rhythm = steps_of("xx.x.");
    let copy = rhythm.clone();
    let _ = rotate_rhythm(&rhythm, 3);
    assert_eq!(rhythm, copy);
}

#[test]
fn rotations_of_three_over_eight() {
    let rhythm = euclidean_rhythm(3, 8);
    let expected = [
        "x.x.x...", ".x.x...x", "x.x...x.", ".x...x.x", "x...x.x.", "...x.x.x", "..x.x.x.",
        ".x.x.x..",
    ];
    for (offset, text) in expected.iter().enumerate() {
        assert_eq!(rhythm_to_string(&rotate_rhythm(&rhythm, offset)), *text);
    }
}

#[test]
fn rotation_keeps_length_and_onsets() {
    for steps in 0..20 {
        for pulses in 0..=steps {
            let rhythm = euclidean_rhythm(pulses, steps);
            for offset in 0..2 * steps + 3 {
                let turned = rotate_rhythm(&rhythm, offset);
                assert_eq!(turned.len(), rhythm.len());
                assert_eq!(onsets_in(&turned), onsets_in(&rhythm));
            }
        }
    }
}

#[test]
fn rotations_compose() {
    let rhythm = euclidean_rhythm(5, 8);
    assert_eq!(
        rhythm_to_string(&rotate_rhythm(&rotate_rhythm(&rhythm, 3), 6)),
        "xx.x.x.x"
    );
    for steps in 1..14 {
        let rhythm = euclidean_rhythm(steps / 3 + 1, steps);
        for a in 0..2 * steps {
            for b in 0..2 * steps {
                assert_eq!(
                    rotate_rhythm(&rotate_rhythm(&rhythm, a), b),
                    rotate_rhythm(&rhythm, a + b)
                );
            }
        }
    }
}

#[test]
fn full_cycle_is_identity() {
    for steps in 1..30 {
        let rhythm = euclidean_rhythm(steps / 2, steps);
        assert_eq!(rotate_rhythm(&rhythm, rhythm.len()), rhythm);
        assert_eq!(rotate_rhythm(&rhythm, 0), rhythm);
        assert_eq!(rotate_rhythm(&rhythm, 3 * rhythm.len()), rhythm);
    }
}

#[test]
fn step_of_rotation_is_step_at_shifted_index() {
    let rhythm = steps_of("x.xx...x.x.");
    for offset in 0..30 {
        let turned = rotate_rhythm(&rhythm, offset);
        for i in 0..rhythm.len() {
            assert_eq!(turned[i], rhythm[(i + offset) % rhythm.len()]);
        }
    }
}
