use badtv::srt::{caption_hits, parse_srt_time, parse_srt_timestamps, parses_as_f64, parses_as_u64};
use badtv::text::{chars_of, trim};

fn chars(s: &str) -> Vec<char> {
    chars_of(s)
}

#[test]
fn u64_literals() {
    assert!(parses_as_u64(&chars("12")));
    assert!(parses_as_u64(&chars("+7")));
    assert!(parses_as_u64(&chars("18446744073709551615")));
    assert!(!parses_as_u64(&chars("18446744073709551616")));
    assert!(!parses_as_u64(&chars("-1")));
    assert!(!parses_as_u64(&chars("+")));
    assert!(!parses_as_u64(&chars("")));
    assert!(!parses_as_u64(&chars("1a")));
}

#[test]
fn float_literals() {
    for ok in ["1", "1.", ".5", "-2.5e3", "+1E-2", "inf", "-Infinity", "NaN", "00"] {
        assert!(parses_as_f64(&chars(ok)), "{}", ok);
        assert!(ok.parse::<f64>().is_ok());
    }
    for bad in ["", ".", "e5", "1e", "1.2.3", " 1", "1 ", "infin", "0x10", "1_0"] {
        assert!(!parses_as_f64(&chars(bad)), "{}", bad);
        assert!(bad.parse::<f64>().is_err());
    }
}

#[test]
fn srt_time_fields() {
    let t = parse_srt_time(&chars("00:24:51,250")).unwrap();
    assert_eq!((t.hours.as_str(), t.minutes.as_str(), t.seconds.as_str()), ("00", "24", "51.250"));
    assert!(parse_srt_time(&chars("24:51,250")).is_none());
    assert!(parse_srt_time(&chars("00:x:51")).is_none());
}

#[test]
fn srt_timestamp_line() {
    let (a, b) = parse_srt_timestamps(&chars("00:00:01,000 --> 00:00:02.5")).unwrap();
    assert_eq!(a.seconds, "01.000");
    assert_eq!(b.seconds, "02.5");
    assert!(parse_srt_timestamps(&chars("00:00:01,000 -> 00:00:02,000")).is_none());
}

const SRT: &str = "1\r\n00:00:01,000 --> 00:00:03,000\r\nWe must ACT now,\r\nbefore it is too late\r\n\r\n2\n00:00:04,000 --> 00:00:05,000\nAct!\n\nx\n3\nbad timing\nact act\n\n4\n00:00:06,000 --> 00:00:07,000\nnothing here\n\n5\n00:00:08,000 --> 00:00:09,500\nact fast\n";

#[test]
fn caption_hits_in_word_count_order() {
    let hits = caption_hits(SRT, "Act");
    let texts: Vec<&str> = hits.iter().map(|h| h.text.as_str()).collect();
    assert_eq!(texts, vec!["Act!", "act fast", "We must ACT now, before it is too late"]);
    assert_eq!(hits[0].start_secs.seconds, "04.000");
    assert_eq!(hits[1].end_secs.seconds, "09.500");
}

#[test]
fn caption_hits_none_for_absent_word() {
    assert!(caption_hits(SRT, "buy").is_empty());
    assert!(caption_hits("", "act").is_empty());
}

#[test]
fn trim_uses_unicode_white_space() {
    let all = "\t\n\u{0B}\u{0C}\r \u{85}\u{A0}\u{1680}\u{2000}\u{200A}\u{2028}\u{2029}\u{202F}\u{205F}\u{3000}";
    for c in all.chars() {
        assert!(c.is_whitespace());
    }
    let padded = format!("{}a b{}", all, all);
    assert_eq!(trim(&padded), vec!['a', ' ', 'b']);
    // A zero-width space and a zero-width no-break space are not white space.
    assert_eq!(trim("\u{200B}a\u{FEFF}"), vec!['\u{200B}', 'a', '\u{FEFF}']);
    assert_eq!(trim(&padded), padded.trim().chars().collect::<Vec<char>>());
}
