use anagram_cracker::passwords::{Password, PasswordTable};
use anagram_cracker::permutations_finder::PermutationsFinder;
use anagram_cracker::State;

fn digest_of(phrase: &str) -> String {
    format!("{:x}", md5::compute(phrase))
}

fn words(ws: &[&str]) -> Vec<String> {
    ws.iter().map(|w| w.to_string()).collect()
}

#[test]
fn test_find_create_expected_permutations() {
    let passwords = PasswordTable::new(vec![
        Password::new(digest_of("this is password")),
        Password::new(digest_of("not a password")),
    ]);
    let mut permutations_finder = PermutationsFinder::new(passwords);

    let res = permutations_finder.find(&words(&["password", "is", "this"]));

    assert_eq!(res, vec!["this is password".to_string()]);
}

#[test]
fn run_stops_after_all_passwords_found() {
    let passwords = PasswordTable::new(vec![
        Password::new(digest_of("this is password")),
        Password::new(digest_of("yet another password")),
    ]);
    let mut permutations_finder = PermutationsFinder::new(passwords);
    let combinations = vec![
        words(&["some", "just", "words"]),
        words(&["is", "this", "password"]),
        words(&["yet", "password", "another"]),
    ];

    let _ = permutations_finder.run(&combinations);

    assert_eq!(permutations_finder.state(), State::Stopped);
    assert!(permutations_finder.all_found());
}

#[test]
fn find_counts_unique_permutations_of_duplicates() {
    // A tuple with a duplicated word has 3!/2! = 3 distinct orderings; one
    // call resolves a target for each of them and no more.
    let passwords = PasswordTable::new(vec![
        Password::new(digest_of("aa aa bb")),
        Password::new(digest_of("aa bb aa")),
        Password::new(digest_of("bb aa aa")),
    ]);
    let mut permutations_finder = PermutationsFinder::new(passwords);

    let res = permutations_finder.find(&words(&["aa", "aa", "bb"]));

    assert_eq!(res.len(), 3);
    assert!(permutations_finder.all_found());
}

#[test]
fn find_resolves_multiple_targets_from_one_tuple() {
    let passwords = PasswordTable::new(vec![
        Password::new(digest_of("one two")),
        Password::new(digest_of("two one")),
    ]);
    let mut permutations_finder = PermutationsFinder::new(passwords);

    let res = permutations_finder.find(&words(&["one", "two"]));

    assert_eq!(res.len(), 2);
    assert!(permutations_finder.all_found());
}

#[test]
fn find_leaves_unmatched_targets_unresolved() {
    let passwords = PasswordTable::new(vec![Password::new(digest_of("something else"))]);
    let mut permutations_finder = PermutationsFinder::new(passwords);

    let res = permutations_finder.find(&words(&["one", "two"]));

    assert_eq!(res.len(), 0);
    assert!(!permutations_finder.all_found());
    let table = permutations_finder.into_passwords();
    assert_eq!(table.snapshot_phrases(), vec![String::new()]);
}
