use anagram_cracker::passwords::{Password, PasswordTable};

fn digest_of(phrase: &str) -> String {
    format!("{:x}", md5::compute(phrase))
}

#[test]
fn mark_found_records_the_phrase() {
    let phrase = "this is test".to_string();
    let digest = digest_of(&phrase);
    let mut table = PasswordTable::new(vec![
        Password::new(digest.clone()),
        Password::new(digest_of("other phrase")),
    ]);

    table.mark_found(&digest, &phrase);

    assert_eq!(table.snapshot_phrases(), vec![phrase, String::new()]);
    assert!(!table.all_found());
}

#[test]
fn mark_found_twice_is_idempotent() {
    let phrase = "this is test".to_string();
    let digest = digest_of(&phrase);
    let mut table = PasswordTable::new(vec![Password::new(digest.clone())]);

    table.mark_found(&digest, &phrase);
    let after_one = table.snapshot_phrases();
    let found_after_one = table.all_found();

    table.mark_found(&digest, &phrase);

    assert_eq!(table.snapshot_phrases(), after_one);
    assert_eq!(table.all_found(), found_after_one);
    assert!(table.all_found());
}

#[test]
fn has_unfound_tracks_resolution() {
    let phrase = "sit the sits".to_string();
    let digest = digest_of(&phrase);
    let mut table = PasswordTable::new(vec![Password::new(digest.clone())]);

    assert!(table.has_unfound(&digest));
    table.mark_found(&digest, &phrase);
    assert!(!table.has_unfound(&digest));
}

#[test]
fn all_found_on_empty_table() {
    let table = PasswordTable::new(vec![]);
    assert!(table.all_found());
    assert_eq!(table.len(), 0);
    assert_eq!(table.snapshot_phrases(), Vec::<String>::new());
}
