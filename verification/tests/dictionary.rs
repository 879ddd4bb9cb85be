use anagram_cracker::dictionary::Dictionary;
use std::collections::HashSet;

fn lines_of(text: &str) -> Vec<String> {
    text.split('\n').map(|l| l.to_string()).collect()
}

#[test]
fn map_returns_expected_dictionary() {
    let wordlist = "this\nis\njust\na\ntest\nlet\nsee\nhow\nit's\nworks\ntest!";
    let allowed_chars = vec!['i', 't', 't', 'e', 's', 'h', 'j', 'u', 'w', 'r', 'o', 'k'];

    let mapped = Dictionary::map(&lines_of(wordlist), 4, 8, &allowed_chars);

    assert_eq!(mapped.len(), 2);
    let four: HashSet<String> = mapped.get(&4).unwrap().iter().cloned().collect();
    let expected_four: HashSet<String> =
        ["this", "just", "test"].iter().map(|w| w.to_string()).collect();
    assert_eq!(four, expected_four);
    assert_eq!(mapped.get(&5).unwrap(), &vec!["works".to_string()]);
}

#[test]
fn is_valid_returns_correct_bool() {
    let cases = [
        ("valid", "validdt", true),
        ("k", "k", false),
        ("cat's", "catssk", false),
        ("tolongworld", "toolongword", false),
        ("conta1n", "contain", false),
        ("seveeen", "neeeves", true),
        ("cat", "catr", true),
    ];
    for (word, allowed, expected) in cases {
        let allowed_chars: Vec<char> = allowed.chars().collect();
        assert_eq!(Dictionary::is_valid(3, 7, &allowed_chars, word), expected, "{}", word);
    }
}

#[test]
fn clean_returns_word_with_removed_non_alphabetic_chars() {
    let cases = [
        ("word!", "word"),
        ("work34", "work"),
        ("worst;", "worst"),
        ("mors\n", "mors"),
        ("something?", "something"),
    ];
    for (word, expected) in cases {
        assert_eq!(Dictionary::clean(word), expected);
    }
}

#[test]
fn dictionary_deduplicates_words_per_length() {
    let allowed: Vec<char> = "testtest".chars().collect();
    let dictionary = Dictionary::new(&lines_of("test\ntest\ntest!"), 4, 8, &allowed);

    // "test" appears twice raw; "test!" trims to the same word but is
    // rejected before trimming ('!' is not among the allowed characters).
    assert_eq!(dictionary.get(&4).unwrap(), vec!["test".to_string()]);
}

#[test]
fn dictionary_get_returns_none_for_absent_lengths() {
    let allowed: Vec<char> = "testtest".chars().collect();
    let dictionary = Dictionary::new(&lines_of("test"), 2, 8, &allowed);

    assert!(dictionary.get(&4).is_some());
    assert!(dictionary.get(&2).is_none());
    assert!(dictionary.get(&5).is_none());
}

#[test]
fn dictionary_checks_the_raw_word_and_buckets_the_trimmed_word() {
    // "word!" is admitted only if '!' is allowed; once admitted it is
    // trimmed and lands in the bucket of its trimmed length.
    let allowed: Vec<char> = "word!".chars().collect();
    let dictionary = Dictionary::new(&lines_of("word!"), 4, 8, &allowed);

    assert_eq!(dictionary.get(&4).unwrap(), vec!["word".to_string()]);
    assert!(dictionary.get(&5).is_none());
}
