use badtv::search::Clip;
use badtv::tui::{highlight_word, selection_step, try_highlight_word, ClipChoice, SelectionKey, SelectionStep};

#[test]
fn test_highlight_word() {
    assert_eq!(
        highlight_word("we must act on this", "act"),
        "we must ACT on this"
    );
}

#[test]
fn test_highlight_not_found() {
    assert_eq!(highlight_word("hello world", "missing"), "hello world");
}

#[test]
fn highlight_is_case_insensitive_and_first_only() {
    assert_eq!(highlight_word("Act now, act fast", "act"), "ACT now, act fast");
    assert_eq!(highlight_word("we must Act", "ACT"), "we must ACT");
}

#[test]
fn try_highlight_agrees_with_highlight() {
    assert_eq!(
        try_highlight_word("buy now and save", "save"),
        Some("buy now and SAVE".to_string())
    );
    assert_eq!(try_highlight_word("", "x"), Some(String::new()));
}

#[test]
fn selection_moves_wrap_around() {
    assert_eq!(selection_step(0, 3, SelectionKey::Up), SelectionStep::Highlight(2));
    assert_eq!(selection_step(2, 3, SelectionKey::Down), SelectionStep::Highlight(0));
    assert_eq!(selection_step(1, 3, SelectionKey::Down), SelectionStep::Highlight(2));
    assert_eq!(selection_step(1, 3, SelectionKey::Other), SelectionStep::Highlight(1));
}

#[test]
fn selection_up_then_down_returns() {
    for len in 1..5usize {
        for i in 0..len {
            let up = match selection_step(i, len, SelectionKey::Up) {
                SelectionStep::Highlight(j) => j,
                _ => panic!("expected a move"),
            };
            assert_eq!(selection_step(up, len, SelectionKey::Down), SelectionStep::Highlight(i));
        }
    }
}

#[test]
fn selection_choose_quit_random() {
    assert_eq!(selection_step(1, 3, SelectionKey::Choose), SelectionStep::Chosen(1));
    assert_eq!(selection_step(1, 3, SelectionKey::Quit), SelectionStep::Quit);
    assert_eq!(selection_step(1, 3, SelectionKey::Random), SelectionStep::Random);
}

#[test]
fn clip_choice_holds_clip() {
    let clip = Clip { identifier: "ID".to_string(), show: String::new(), station: String::new(), start_secs: 1.0f64, end_secs: 2.0f64 };
    match ClipChoice::Selected(clip) {
        ClipChoice::Selected(c) => assert_eq!(c.identifier, "ID"),
        _ => panic!("expected a selection"),
    }
}
