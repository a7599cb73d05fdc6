use badtv::fetch::ffmpeg_failure_message;
use badtv::phrase::{normalize_sample_word, phrase_words, sample_path, stitched_path};
use badtv::process::{eq_preset, stitch_layout, EqPreset};

#[test]
fn phrase_split_and_trim() {
    assert_eq!(phrase_words("  Buy now, and -- SAVE!  "), vec!["Buy", "now", "and", "SAVE"]);
    assert!(phrase_words("  ... ").is_empty());
}

#[test]
fn sample_word_normalised() {
    assert_eq!(normalize_sample_word("  \"Buy!\" "), "buy");
    assert_eq!(normalize_sample_word("..."), "");
}

#[test]
fn sample_file_names() {
    assert_eq!(sample_path("buy", "buy", "CNN_1"), "buy/buy-CNN_1.wav");
    assert_eq!(stitched_path("out", "buy"), "out/buy-stitched.wav");
}

#[test]
fn ffmpeg_errors() {
    assert_eq!(ffmpeg_failure_message("x\nServer returned 404 Not Found\n"), "MP3 not found (404)");
    assert_eq!(ffmpeg_failure_message("a\nfile does not exist"), "MP3 not found (404)");
    assert_eq!(ffmpeg_failure_message("line one\nlast line\n"), "ffmpeg failed: last line");
    assert_eq!(ffmpeg_failure_message(""), "ffmpeg failed: unknown error");
}

#[test]
fn eq_presets() {
    assert_eq!(eq_preset("off"), EqPreset::Flat);
    assert_eq!(eq_preset("flat"), EqPreset::Flat);
    assert_eq!(eq_preset("tv"), EqPreset::Tv);
    assert_eq!(eq_preset("bright"), EqPreset::Bright);
    assert_eq!(eq_preset("TV"), EqPreset::Unknown);
}

#[test]
fn stitch_layout_gap_and_crossfade() {
    let gap = (0.1f32 * 44100.0) as usize;
    let l = stitch_layout(&vec![1000, 1000], 0, gap).unwrap();
    assert_eq!(l.total, 1000 + (0.1 * 44100.0) as usize + 1000);
    assert_eq!((l.placements[1].start, l.placements[1].overlap), (1000 + gap, 0));
    let x = stitch_layout(&vec![1000, 1000], 22050, 0).unwrap();
    assert_eq!((x.placements[1].start, x.placements[1].overlap), (0, 1000));
    assert_eq!(x.total, 1000);
    let y = stitch_layout(&vec![100, 50, 80], 30, 10).unwrap();
    assert_eq!(y.placements.iter().map(|p| (p.start, p.overlap)).collect::<Vec<_>>(), vec![(0, 0), (80, 30), (110, 30)]);
    assert_eq!(y.total, 190);
    assert!(stitch_layout(&vec![], 30, 50).unwrap().placements.is_empty());
    assert!(stitch_layout(&vec![usize::MAX, 1], 0, 0).is_none());
}

fn samples_for_ms(ms: u32) -> usize {
    (ms as f32 / 1000.0 * 44100.0) as usize
}

#[test]
fn test_empty() {
    let l = stitch_layout(&vec![], samples_for_ms(30), samples_for_ms(50)).unwrap();
    assert_eq!(l.total, 0);
}

#[test]
fn test_single() {
    let l = stitch_layout(&vec![100], samples_for_ms(30), samples_for_ms(50)).unwrap();
    assert_eq!(l.total, 100);
}

#[test]
fn test_gap() {
    let l = stitch_layout(&vec![1000, 1000], samples_for_ms(0), samples_for_ms(100)).unwrap();
    assert_eq!(l.total, 1000 + (0.1 * 44100.0) as usize + 1000);
}
