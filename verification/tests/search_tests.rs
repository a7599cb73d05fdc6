use badtv::search::{available_clips, clip_available, clips_from_search, parse_href_times, search_url, station_passes, Clip, ClipProbe, IaFields};

#[test]
fn test_parse_href_times() {
    let href = "/details/CNBC_20090829_080000_Mad_Money/start/321/end/381?q=buy";
    let (start, end) = parse_href_times(href).unwrap();
    let start: f64 = start.parse().unwrap();
    let end: f64 = end.parse().unwrap();
    assert!((start - 321.0).abs() < 0.01);
    assert!((end - 381.0).abs() < 0.01);
}

#[test]
fn test_parse_href_times_no_times() {
    assert!(parse_href_times("/details/SHOW").is_none());
}

#[test]
fn href_times_must_be_numbers() {
    assert!(parse_href_times("/details/X/start/abc/end/3").is_none());
    assert!(parse_href_times("/details/X/start/1.5/end").is_none());
    assert_eq!(
        parse_href_times("/details/X/start/1.5/end/2e1?start/9"),
        Some(("1.5".to_string(), "2e1".to_string()))
    );
}

#[test]
fn test_clip_mp3_url() {
    let clip = Clip {
        identifier: "CNNW_20170705_180000_Show".to_string(),
        show: String::new(),
        station: String::new(),
        start_secs: 0.0,
        end_secs: 60.0,
    };
    assert_eq!(
        clip.mp3_url(),
        "https://archive.org/download/CNNW_20170705_180000_Show/CNNW_20170705_180000_Show.mp3"
    );
}

#[test]
fn clip_srt_urls_cc5_first() {
    let clip = Clip { identifier: "ABC".to_string(), show: String::new(), station: String::new(), start_secs: 0.0f64, end_secs: 1.0f64 };
    assert_eq!(
        clip.srt_urls(),
        vec![
            "https://archive.org/download/ABC/ABC.cc5.srt".to_string(),
            "https://archive.org/download/ABC/ABC.cc1.srt".to_string()
        ]
    );
}

#[test]
fn search_url_encodes_word() {
    assert_eq!(
        search_url("https://x/", "buy now&é"),
        "https://x/?service_backend=tvs&user_query=buy%20now%26%C3%A9&hits_per_page=50"
    );
}

fn fields(id: Option<&str>, creator: Option<Vec<&str>>, href: Option<&str>) -> Option<IaFields> {
    Some(IaFields {
        identifier: id.map(|s| s.to_string()),
        title: Some("Show".to_string()),
        creator: creator.map(|v| v.into_iter().map(|s| s.to_string()).collect()),
        href: href.map(|s| s.to_string()),
    })
}

#[test]
fn search_results_skip_incomplete_hits() {
    let hits = vec![
        None,
        fields(None, Some(vec!["CNN"]), Some("/details/A/start/1/end/2")),
        fields(Some("B"), Some(vec!["CNN"]), None),
        fields(Some("C"), None, Some("/details/C/start/5/end/9")),
        fields(Some("D"), Some(vec!["CNN"]), Some("/details/D")),
    ];
    let clips = clips_from_search(&hits, &vec![], &vec![]);
    assert_eq!(clips.len(), 1);
    assert_eq!(clips[0].identifier, "C");
    assert_eq!(clips[0].station, "");
    assert_eq!(clips[0].show, "Show");
    assert_eq!(clips[0].start_secs, "5");
    assert_eq!(clips[0].end_secs, "9");
}

#[test]
fn search_results_station_filters() {
    let hits = vec![
        fields(Some("A"), Some(vec!["CNN"]), Some("/details/A/start/1/end/2")),
        fields(Some("B"), Some(vec!["MSNBC"]), Some("/details/B/start/1/end/2")),
        fields(Some("C"), Some(vec!["FOXNEWS"]), Some("/details/C/start/1/end/2")),
    ];
    let only = clips_from_search(&hits, &vec!["cnn".to_string(), "msnbc".to_string()], &vec!["MSNBC".to_string()]);
    assert_eq!(only.len(), 1);
    assert_eq!(only[0].identifier, "A");
    let excl = clips_from_search(&hits, &vec![], &vec!["foxnews".to_string()]);
    assert_eq!(excl.iter().map(|c| c.identifier.clone()).collect::<Vec<_>>(), vec!["A", "B"]);
}

#[test]
fn station_filter_ignores_ascii_case() {
    assert!(station_passes("CNN", &vec!["cnn".to_string()], &vec![]));
    assert!(!station_passes("CNN", &vec!["cnbc".to_string()], &vec![]));
    assert!(!station_passes("CNN", &vec![], &vec!["Cnn".to_string()]));
    assert!(station_passes("CNN", &vec![], &vec![]));
}

#[test]
fn picked_clip_goes_first() {
    let mk = |id: &str, t: f64| Clip { identifier: id.to_string(), show: String::new(), station: String::new(), start_secs: t, end_secs: t + 1.0 };
    let clips = vec![mk("A", 1.0), mk("B", 2.0), mk("A", 3.0), mk("C", 4.0)];
    let picked = mk("A", 3.0);
    let order = badtv::search::put_first(&clips, &picked);
    let ids: Vec<(&str, f64)> = order.iter().map(|c| (c.identifier.as_str(), c.start_secs)).collect();
    assert_eq!(ids, vec![("A", 3.0), ("B", 2.0), ("C", 4.0)]);
}

#[test]
fn unused_items_come_first() {
    let mk = |id: &str, t: f64| Clip { identifier: id.to_string(), show: String::new(), station: String::new(), start_secs: t, end_secs: t + 1.0 };
    let clips = vec![mk("A", 1.0), mk("B", 2.0), mk("C", 3.0), mk("A", 4.0)];
    let order = badtv::search::unused_first(&clips, &vec!["A".to_string()]);
    let ids: Vec<(&str, f64)> = order.iter().map(|c| (c.identifier.as_str(), c.start_secs)).collect();
    assert_eq!(ids, vec![("B", 2.0), ("C", 3.0), ("A", 1.0), ("A", 4.0)]);
}

#[test]
fn available_clips_keep_probed_order() {
    let mk = |id: &str, t: f64| Clip { identifier: id.to_string(), show: String::new(), station: String::new(), start_secs: t, end_secs: t + 1.0 };
    let clips = vec![mk("A", 1.0), mk("B", 2.0), mk("C", 3.0), mk("D", 4.0)];
    let probes = vec![
        ClipProbe { mp3_ok: true, srt_ok: vec![false, true] },
        ClipProbe { mp3_ok: false, srt_ok: vec![] },
        ClipProbe { mp3_ok: true, srt_ok: vec![false, false] },
        ClipProbe { mp3_ok: true, srt_ok: vec![true] },
    ];
    let kept = available_clips(&clips, &probes);
    let ids: Vec<&str> = kept.iter().map(|c| c.identifier.as_str()).collect();
    assert_eq!(ids, vec!["A", "D"]);
    assert_eq!(kept[1].start_secs, 4.0);
    assert!(!clip_available(&ClipProbe { mp3_ok: false, srt_ok: vec![true] }));
    assert!(available_clips::<f64>(&vec![], &vec![]).is_empty());
}
