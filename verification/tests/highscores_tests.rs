use math_scrabble::highscores::{Highscores, HighscoresEntry};

fn entry(name: &str, score: u64) -> HighscoresEntry {
    HighscoresEntry { name: name.to_string(), score, new: false }
}

fn table_of(es: &[(&str, u64)]) -> Highscores {
    Highscores { entries: es.iter().map(|(n, s)| entry(n, *s)).collect() }
}

fn summary_of(h: &Highscores) -> Vec<(String, u64, bool)> {
    h.entries().iter().map(|e| (e.name.clone(), e.score, e.is_new())).collect()
}

#[test]
fn a_positive_score_enters_an_empty_table() {
    let mut h = Highscores::empty();
    assert!(h.entries().is_empty());
    assert!(h.update("Ann".to_string(), 10));
    assert_eq!(summary_of(&h), vec![("Ann".to_string(), 10, true)]);
    assert!(!h.update("Bob".to_string(), 0));
    assert_eq!(h.entries().len(), 1);
}

#[test]
fn new_scores_go_before_lower_ones_and_after_equal_ones() {
    let mut h = table_of(&[("A", 30), ("B", 20), ("C", 10)]);
    assert!(h.update("D".to_string(), 20));
    assert_eq!(
        summary_of(&h),
        vec![
            ("A".to_string(), 30, false),
            ("B".to_string(), 20, false),
            ("D".to_string(), 20, true),
            ("C".to_string(), 10, false),
        ]
    );
}

#[test]
fn a_full_table_keeps_ten_entries() {
    let names = ["a", "b", "c", "d", "e", "f", "g", "h", "i", "j"];
    let es: Vec<(&str, u64)> = names.iter().enumerate().map(|(i, n)| (*n, 100 - 10 * i as u64)).collect();
    let mut h = table_of(&es);
    // The last entry has 10 points: 10 does not beat it.
    assert!(!h.update("k".to_string(), 10));
    assert!(h.update("k".to_string(), 11));
    assert_eq!(h.entries().len(), 10);
    assert_eq!(h.entries()[9].name, "k");
    assert_eq!(h.entries()[9].score, 11);
    assert!(h.update("top".to_string(), 1000));
    assert_eq!(h.entries().len(), 10);
    assert_eq!(h.entries()[0].name, "top");
    assert_eq!(h.entries()[9].name, "i");
}

#[test]
fn reading_the_file() {
    let h = Highscores::parse("Ann\n10\nBob\n5\n").unwrap();
    assert_eq!(summary_of(&h), vec![("Ann".to_string(), 10, false), ("Bob".to_string(), 5, false)]);
    // Empty lines are skipped and a carriage return before a line feed is dropped.
    let h = Highscores::parse("Ann\r\n\r\n10\r\n\nBob\n5").unwrap();
    assert_eq!(summary_of(&h), vec![("Ann".to_string(), 10, false), ("Bob".to_string(), 5, false)]);
    let h = Highscores::parse("").unwrap();
    assert!(h.entries().is_empty());
}

#[test]
fn corrupted_files_are_refused() {
    // Scores must not increase.
    assert!(Highscores::parse("Ann\n5\nBob\n10\n").is_none());
    // A score must be a number.
    assert!(Highscores::parse("Ann\nten\n").is_none());
    assert!(Highscores::parse("Ann\n-3\n").is_none());
    // Lines come in pairs.
    assert!(Highscores::parse("Ann\n10\nBob\n").is_none());
    // At most ten entries.
    let mut text = String::new();
    for _ in 0..11 {
        text.push_str("x\n1\n");
    }
    assert!(Highscores::parse(&text).is_none());
}

#[test]
fn writing_and_reading_back() {
    let mut h = table_of(&[("Ann", 10), ("Bob", 5)]);
    assert!(h.update("Cid".to_string(), 7));
    let text = h.file_content();
    assert_eq!(text, "Ann\n10\nCid\n7\nBob\n5\n");
    let back = Highscores::parse(&text).unwrap();
    assert_eq!(
        summary_of(&back),
        vec![("Ann".to_string(), 10, false), ("Cid".to_string(), 7, false), ("Bob".to_string(), 5, false)]
    );
    assert_eq!(Highscores::parse("Big\n18446744073709551615\n").unwrap().entries()[0].score, u64::MAX);
    assert!(Highscores::parse("Big\n18446744073709551616\n").is_none());
}
