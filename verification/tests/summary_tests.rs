use math_scrabble::highscores::{Highscores, HighscoresEntry};
use math_scrabble::input::PointerButton;
use math_scrabble::summary::{rank_results, Summary};

fn results(rs: &[(&str, u64)]) -> Vec<(String, u64)> {
    rs.iter().map(|(n, s)| (n.to_string(), *s)).collect()
}

#[test]
fn results_are_ranked_best_first() {
    let ranked = rank_results(&results(&[("Ann", 5), ("Bob", 9), ("Cid", 5), ("Dan", 7)]));
    // Of equal scores, the later player comes first.
    assert_eq!(ranked, results(&[("Bob", 9), ("Dan", 7), ("Cid", 5), ("Ann", 5)]));
    assert_eq!(rank_results(&Vec::new()), Vec::<(String, u64)>::new());
}

#[test]
fn a_summary_offers_every_result_a_place() {
    let mut table = Highscores::empty();
    let s = Summary::new(results(&[("Ann", 5), ("Bob", 9), ("Cid", 5)]), &mut table);
    assert_eq!(s.results, results(&[("Bob", 9), ("Cid", 5), ("Ann", 5)]));
    assert!(s.show_highscores);
    let names: Vec<(String, u64, bool)> =
        table.entries().iter().map(|e| (e.name.clone(), e.score, e.is_new())).collect();
    assert_eq!(
        names,
        vec![("Bob".to_string(), 9, true), ("Cid".to_string(), 5, true), ("Ann".to_string(), 5, true)]
    );
}

#[test]
fn no_highscores_without_a_qualifying_score() {
    let mut table = Highscores {
        entries: (0..10)
            .map(|i| HighscoresEntry { name: format!("P{}", i), score: 100 - i, new: false })
            .collect(),
    };
    let s = Summary::new(results(&[("Ann", 0), ("Bob", 91)]), &mut table);
    assert!(!s.show_highscores);
    assert_eq!(table.entries().len(), 10);
    assert_eq!(table.entries()[9].score, 91);
}

#[test]
fn clicks_go_from_highscores_to_results_to_the_end() {
    let mut table = Highscores::empty();
    let mut s = Summary::new(results(&[("Ann", 3)]), &mut table);
    assert!(s.show_highscores);
    // Releasing without pressing first does nothing.
    s.mouse_button_up_event(PointerButton::Left);
    assert!(s.show_highscores);
    s.mouse_button_down_event(PointerButton::Right);
    s.mouse_button_up_event(PointerButton::Right);
    assert!(s.show_highscores);
    s.mouse_button_down_event(PointerButton::Left);
    s.mouse_button_up_event(PointerButton::Left);
    assert!(!s.show_highscores);
    assert!(!s.is_finished());
    s.mouse_button_down_event(PointerButton::Left);
    s.mouse_button_up_event(PointerButton::Left);
    assert!(s.is_finished());
}
