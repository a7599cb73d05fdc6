use badtv::align::{assemble_transcript, best_word_match, edit_distance_1, keep_heard_word, sounds_alike, word_not_found_message, WordCandidate};

fn ed(a: &str, b: &str) -> bool {
    edit_distance_1(a, b)
}

#[test]
fn edit_distance_one() {
    assert!(ed("save", "safe"));
    assert!(ed("save", "saves"));
    assert!(ed("saves", "save"));
    assert!(ed("save", "ave"));
    assert!(ed("save", "save"));
    assert!(!ed("save", "sofe"));
    assert!(!ed("save", "sa"));
    assert!(!ed("abcd", "acbd"));
    assert!(ed("", "a"));
}

#[test]
fn edit_distance_is_symmetric() {
    for (a, b) in [("buy", "by"), ("now", "know"), ("act", "fact"), ("save", "sales")] {
        assert_eq!(ed(a, b), ed(b, a));
    }
}

#[test]
fn homophones() {
    assert!(sounds_alike("bye", "buy"));
    assert!(sounds_alike("by", "buy"));
    assert!(sounds_alike("buy", "bi"));
    assert!(sounds_alike("now", "now"));
    assert!(!sounds_alike("now", "then"));
}

fn word(t: &str, ok: bool) -> WordCandidate {
    WordCandidate { text: t.to_string(), well_timed: ok }
}

#[test]
fn best_match_prefers_exact_then_first() {
    let words = vec![word("saves", true), word("Save,", true), word("save", true)];
    assert_eq!(best_word_match(&words, "SAVE"), Some(1));
}

#[test]
fn best_match_close_and_homophone() {
    let words = vec![word("hello", true), word("world", true)];
    assert_eq!(best_word_match(&words, "world"), Some(1));
    let close = vec![word("wurld", true)];
    assert_eq!(best_word_match(&close, "world"), Some(0));
    let short = vec![word("bye", true)];
    assert_eq!(best_word_match(&short, "buy"), None);
}

#[test]
fn best_match_case_insensitive() {
    let words = vec![word("Hello", true)];
    assert_eq!(best_word_match(&words, "hello"), Some(0));
}

#[test]
fn best_match_not_found_and_timing() {
    let words = vec![word("hello", true)];
    assert_eq!(best_word_match(&words, "goodbye"), None);
    let late = vec![word("hello", false)];
    assert_eq!(best_word_match(&late, "hello"), None);
    let empty = vec![word("...", true)];
    assert_eq!(best_word_match(&empty, "..."), None);
}

#[test]
fn not_found_message_lists_heard_words() {
    let words = vec![word("hello", true), word("World", false)];
    assert_eq!(
        word_not_found_message("goodbye", &words),
        "Word 'goodbye' not found in whisper output: [hello, World]"
    );
}

#[test]
fn transcript_from_tokens() {
    let toks: Vec<String> = vec![" Buy", "[BLANK_AUDIO]", " ", "NOW! "].into_iter().map(String::from).collect();
    assert_eq!(assemble_transcript(&toks), "buy now!");
    assert_eq!(assemble_transcript(&vec![]), "");
}

/// Heard words with their timing checked the way the extraction does it: away from
/// the first and last moments of the clip and of plausible length.
fn timed(words: &[(&str, f32, f32)], duration: f32) -> Vec<WordCandidate> {
    let edge = (duration * 0.05f32).clamp(0.2, 0.5);
    words
        .iter()
        .map(|&(t, s, e)| WordCandidate {
            text: t.to_string(),
            well_timed: !(s < edge || e > duration - edge) && (0.01..=1.5).contains(&(e - s)),
        })
        .collect()
}

#[test]
fn test_extract_word_finds_match() {
    let words = timed(&[("hello", 3.0, 3.3), ("world", 4.0, 4.3)], 441000.0 / 44100.0);
    assert_eq!(best_word_match(&words, "world"), Some(1));
}

#[test]
fn test_extract_word_case_insensitive() {
    let words = timed(&[("Hello", 3.0, 3.3)], 441000.0 / 44100.0);
    assert!(best_word_match(&words, "hello").is_some());
}

#[test]
fn test_extract_word_not_found() {
    let words = timed(&[("hello", 3.0, 3.3)], 441000.0 / 44100.0);
    assert!(best_word_match(&words, "goodbye").is_none());
}

#[test]
fn words_at_clip_edges_are_ignored() {
    let words = timed(&[("world", 0.1, 0.4), ("world", 9.8, 9.95)], 10.0);
    assert_eq!(best_word_match(&words, "world"), None);
}

#[test]
fn best_match_ranks_prefix_then_contained_then_close() {
    // One edit away, contains the target, starts with it: the prefix wins.
    let words = vec![word("hallo", true), word("sayhello", true), word("helloworld", true)];
    assert_eq!(best_word_match(&words, "hello"), Some(2));
    // Without the prefix, the word containing the target beats the close one.
    let words = vec![word("hallo", true), word("sayhello", true)];
    assert_eq!(best_word_match(&words, "hello"), Some(1));
    // An exact match still beats all of them.
    let words = vec![word("helloworld", true), word("Hello!", true)];
    assert_eq!(best_word_match(&words, "hello"), Some(1));
}

#[test]
fn short_targets_match_only_exactly() {
    let words = vec![word("buying", true), word("abuy", true), word("bu", true)];
    assert_eq!(best_word_match(&words, "buy"), None);
    let words = vec![word("buying", true), word("buy.", true)];
    assert_eq!(best_word_match(&words, "buy"), Some(1));
}

#[test]
fn test_extract_word_prefix_match() {
    let words = timed(&[("helloworld", 3.0, 3.25)], 441000.0 / 44100.0);
    assert_eq!(best_word_match(&words, "hello"), Some(0));
}

#[test]
fn heard_word_filter() {
    assert!(keep_heard_word(" hello"));
    assert!(keep_heard_word("hello]"));
    assert!(!keep_heard_word("   "));
    assert!(!keep_heard_word(""));
    assert!(!keep_heard_word("[MUSIC]"));
    assert!(keep_heard_word(" [MUSIC]"));
}
