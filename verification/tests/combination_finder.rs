use anagram_cracker::combination_finder::{CombinationFinder, DictionaryIterator};
use anagram_cracker::State;

fn bucket(words: &[&str]) -> Vec<String> {
    words.iter().map(|w| w.to_string()).collect()
}

#[test]
fn test_dictionary_iterator() {
    let dictionary = vec![
        bucket(&["who", "bet", "set", "yet"]),
        bucket(&["test", "best", "rest"]),
    ];
    let mut iterator = DictionaryIterator::new(&dictionary);

    assert_eq!(iterator.next().unwrap(), vec![0, 0]);
    assert_eq!(iterator.next().unwrap(), vec![0, 1]);
    assert_eq!(iterator.next().unwrap(), vec![0, 2]);
    assert_eq!(iterator.next().unwrap(), vec![1, 0]);
    assert_eq!(iterator.next().unwrap(), vec![1, 1]);
    assert_eq!(iterator.next().unwrap(), vec![1, 2]);
    assert_eq!(iterator.next().unwrap(), vec![2, 0]);
    assert_eq!(iterator.next().unwrap(), vec![2, 1]);
    assert_eq!(iterator.next().unwrap(), vec![2, 2]);
    assert_eq!(iterator.next().unwrap(), vec![3, 0]);
    assert_eq!(iterator.next().unwrap(), vec![3, 1]);
    assert_eq!(iterator.next().unwrap(), vec![3, 2]);
    assert_eq!(iterator.next(), None);
}

#[test]
fn test_dictionary_iterator_creates_expected_number_of_combinations() {
    for (rows, columns, expected) in [(3usize, 3usize, 27usize), (2, 3, 8), (1, 8, 1), (8, 1, 8)] {
        let dictionary = vec![bucket(&vec!["a"; rows]); columns];
        let mut iterator = DictionaryIterator::new(&dictionary);
        let mut counter = 0;
        while let Some(_) = iterator.next() {
            counter += 1;
        }
        assert_eq!(counter, expected);
    }
}

#[test]
fn validate_returns_expected() {
    let cases: Vec<(Vec<&str>, Vec<char>, bool)> = vec![
        (
            vec!["this", "is", "test"],
            vec!['e', 'h', 'i', 'i', 's', 's', 's', 't', 't', 't'],
            true,
        ),
        (
            vec!["this", "is", "test"],
            vec!['e', 'i', 'i', 'i', 's', 's', 's', 't', 't', 't'],
            false,
        ),
    ];
    for (combination, comparator, expected) in cases {
        let dictionary: Vec<Vec<String>> = vec![];
        let combination_finder = CombinationFinder::new(dictionary, comparator);
        let words = bucket(&combination);
        assert_eq!(combination_finder.is_valid(&words), expected);
    }
}

#[test]
fn run_return_expected_combinations() {
    let dictionary = vec![
        bucket(&["who", "bet", "set"]),
        bucket(&["test", "best", "pies"]),
        bucket(&["dizzy", "junky", "zippy", "tyztp"]),
    ];
    let mut combination_finder = CombinationFinder::new(
        dictionary,
        vec!['e', 'h', 'i', 'o', 'p', 'p', 's', 't', 't', 'w', 'y', 'z'],
    );
    assert_eq!(combination_finder.state(), State::Idle);

    let results = combination_finder.run();

    assert_eq!(results[0], bucket(&["who", "test", "zippy"]));
    assert_eq!(results[1], bucket(&["who", "pies", "tyztp"]));
    assert_eq!(results.len(), 2);
    assert_eq!(combination_finder.state(), State::Stopped);
}

#[test]
fn run_sorts_the_comparator_before_matching() {
    // The comparator arrives unsorted; the multiset check must still accept
    // the only matching tuple.
    let dictionary = vec![bucket(&["ab", "zz"]), bucket(&["cd", "qq"])];
    let mut combination_finder = CombinationFinder::new(dictionary, vec!['d', 'b', 'c', 'a']);

    let results = combination_finder.run();

    assert_eq!(results, vec![bucket(&["ab", "cd"])]);
}
