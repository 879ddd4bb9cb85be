use anagram_cracker::combination_generator::{CombinationGenerator, Generator};

#[test]
fn get_next_combination_returns_valid_combination_lengths() {
    let mut generator = Generator::new(21, 3, 10, 3);

    assert_eq!(generator.next().unwrap(), vec![10, 8, 3]);
    assert_eq!(generator.next().unwrap(), vec![9, 9, 3]);
}

#[test]
fn combination_generator_calls_generators_in_turns() {
    let mut combination_generator = CombinationGenerator::new(8, 2, 6, 3);

    assert_eq!(combination_generator.next().unwrap().len(), 2);
    assert_eq!(combination_generator.next().unwrap().len(), 3);
    assert_eq!(combination_generator.next().unwrap().len(), 2);
}

#[test]
fn combination_generator_returns_expected_number_of_combinations() {
    let mut combination_length_gen = CombinationGenerator::new(18, 3, 10, 4);
    let mut combinations = vec![];

    while let Some(combination) = combination_length_gen.next() {
        combinations.push(combination);
    }

    assert_eq!(combinations.len(), 21);
}

#[test]
fn composer_emits_only_legal_sorted_tuples() {
    let mut generator = CombinationGenerator::new(18, 3, 10, 4);
    let mut seen = vec![];

    while let Some(combination) = generator.next() {
        let sum: usize = combination.iter().sum();
        assert_eq!(sum, 18);
        assert!(1 <= combination.len() && combination.len() <= 4);
        for window in combination.windows(2) {
            assert!(window[0] <= window[1]);
        }
        for value in combination.iter() {
            assert!(3 <= *value && *value <= 10);
        }
        assert!(!seen.contains(&combination));
        seen.push(combination);
    }
}

#[test]
fn composer_deduplicates_by_canonical_form() {
    let mut generator = CombinationGenerator::new(8, 2, 6, 3);
    let mut seen = vec![];

    while let Some(combination) = generator.next() {
        seen.push(combination);
    }

    assert!(seen.contains(&vec![3, 5]));
    assert!(!seen.contains(&vec![5, 3]));
}

#[test]
fn composer_covers_every_composition_of_a_small_space() {
    // target 6 over lengths 2..=4, at most 3 words: multisets {2,4}, {3,3},
    // {2,2,2}; the all-minimum composition {2,2,2} lies at the odometer's
    // starting state of width 3 and is therefore never yielded.
    let mut generator = CombinationGenerator::new(6, 2, 4, 3);
    let mut seen = vec![];

    while let Some(combination) = generator.next() {
        seen.push(combination);
    }

    assert!(seen.contains(&vec![2, 4]));
    assert!(seen.contains(&vec![3, 3]));
    assert_eq!(seen.len(), 2);
}

#[test]
fn width_generator_skips_tuples_with_wrong_sums() {
    let mut generator = Generator::new(5, 1, 3, 2);
    let mut seen = vec![];

    while let Some(combination) = generator.next() {
        seen.push(combination);
    }

    // Width-2 tuples over [1,3] summing to 5: (2,3) and (3,2), in odometer
    // order (position 0 is the fastest digit).
    assert_eq!(seen, vec![vec![3, 2], vec![2, 3]]);
}
