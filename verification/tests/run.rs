use anagram_cracker::passwords::{Password, PasswordTable};
use anagram_cracker::run;

fn lines_of(text: &str) -> Vec<String> {
    text.split('\n').map(|l| l.to_string()).collect()
}

fn test_wordlist() -> Vec<String> {
    lines_of("this\nis\njust\na\ntest\nlet\nsee\nhow\nit's\nsit\nthe\nsits\nworks")
}

#[test]
fn test_run() {
    let passwords = PasswordTable::new(vec![
        Password::new("8c6d115258631625b625486f81b09532".to_string()),
        Password::new("d1e744eced74494c7a5292a93252eb6c".to_string()),
    ]);
    let comparator: Vec<char> = vec!["sitt", "thesis"].join("").chars().collect();

    let table = run(&test_wordlist(), 2, 10, comparator, 10, 4, passwords);

    let phrases = table.snapshot_phrases();
    assert_eq!(phrases[0], "this is test");
    assert_eq!(phrases[1], "sit the sits");
}

#[test]
fn run_is_deterministic() {
    let comparator: Vec<char> = "sittthesis".chars().collect();
    let mut results = vec![];
    for _ in 0..2 {
        let passwords = PasswordTable::new(vec![
            Password::new("8c6d115258631625b625486f81b09532".to_string()),
            Password::new("d1e744eced74494c7a5292a93252eb6c".to_string()),
        ]);
        let table = run(&test_wordlist(), 2, 10, comparator.clone(), 10, 4, passwords);
        results.push(table.snapshot_phrases());
    }
    assert_eq!(results[0], results[1]);
}

#[test]
fn run_with_no_targets_completes() {
    let comparator: Vec<char> = "sittthesis".chars().collect();
    let table = run(&test_wordlist(), 2, 10, comparator, 10, 4, PasswordTable::new(vec![]));
    assert!(table.all_found());
}

#[test]
fn run_leaves_unreachable_targets_unresolved() {
    let passwords = PasswordTable::new(vec![Password::new(format!(
        "{:x}",
        md5::compute("no such phrase")
    ))]);
    let comparator: Vec<char> = "sittthesis".chars().collect();

    let table = run(&test_wordlist(), 2, 10, comparator, 10, 4, passwords);

    assert!(!table.all_found());
    assert_eq!(table.snapshot_phrases(), vec![String::new()]);
}
