use amdl::align::{
    align, align_words, bearer, matching_blocks, models_endpoint, norm, strip_brackets, transcribed_words,
    whisper_endpoint, whisper_models, whisper_request, Whisper, DEFAULT_MODEL,
};

#[test]
fn norm_strips_tags_punct_and_case() {
    assert_eq!(norm("You'll say, \"We've got nothin'\""), "you ll say we ve got nothin");
    assert_eq!(norm("[Chorus] Hello"), "hello");
    assert_eq!(norm("  MiXeD   CASE\tand\ntabs "), "mixed case and tabs");
    assert_eq!(norm("a [ b"), "a b");
    assert_eq!(norm("[strip all]"), "");
}

#[test]
fn a_normal_form_is_its_own() {
    let capitals = (0..=0x10ffff).filter_map(char::from_u32).filter(|c| c.is_uppercase());
    let mut texts: Vec<String> = capitals.map(|c| format!("{c}a {c}")).collect();
    texts.extend(["", " - ", "[x] Y  z!", "ΑΣ'Β ΟΔΟΣ"].map(str::to_string));
    for s in texts {
        let n = norm(&s);
        assert_eq!(norm(&n), n, "{s}");
        assert!(n.chars().all(|c| c.is_alphanumeric() || c == ' '));
        assert!(n.trim() == n && !n.contains("  "));
    }
}

#[test]
fn norm_keeps_letters_of_other_scripts() {
    assert_eq!(norm("Ærø, ÉTÉ"), "ærø été");
}

#[test]
fn brackets_are_stripped_pair_by_pair() {
    assert_eq!(strip_brackets("a [b] c [d"), "a   c [d");
}

#[test]
fn matching_blocks_maps_common_runs() {
    let a = ["a", "b", "c", "d"];
    let b = ["b", "c", "d", "e"];
    assert_eq!(matching_blocks(&a, &b), vec![(1, 0, 3)]);
    let a = ["x", "one", "y", "two"];
    let b = ["one", "z", "two"];
    let mut got = matching_blocks(&a, &b);
    got.sort_unstable();
    assert_eq!(got, vec![(1, 0, 1), (3, 2, 1)]);
}

#[test]
fn matching_blocks_are_ordered_and_disjoint() {
    let a = ["a", "b", "a", "c", "b", "d"];
    let b = ["b", "d", "a", "b", "c", "b", "d"];
    let got = matching_blocks(&a, &b);
    for w in got.windows(2) {
        assert!(w[0].0 + w[0].2 <= w[1].0 && w[0].1 + w[0].2 <= w[1].1);
        assert!(w[0].0 + w[0].2 < w[1].0 || w[0].1 + w[0].2 < w[1].1);
    }
    for (i, j, k) in got {
        assert_eq!(&a[i..i + k], &b[j..j + k]);
    }
}

#[test]
fn align_words_times_lines_and_interpolates() {
    let lines = ["hello world", "unheard line"];
    let words = vec![(1_000_000, "hello".to_string()), (2_000_000, "world".to_string())];
    let r = align_words(&lines, &words).unwrap();
    assert_eq!(r.lines.len(), 2);
    assert_eq!(r.lines[0].i, 0);
    assert_eq!(r.lines[0].start as f64 / 100.0, 1.0);
    assert_eq!(r.lines[0].end as f64 / 100.0, 2.0);
    assert!((r.lines[0].conf as f64 / 1000.0 - 1.0).abs() < 1e-9);
    assert_eq!(r.lines[1].start as f64 / 100.0, 1.0);
    assert!((r.lines[1].conf as f64 / 1000.0).abs() < 1e-9);
}

#[test]
fn align_words_enforces_monotonic_starts() {
    let lines = ["a", "b"];
    let words = vec![(5_000_000, "b".to_string()), (9_000_000, "a".to_string())];
    let r = align_words(&lines, &words).unwrap();
    let starts: Vec<f64> = r.lines.iter().map(|l| l.start as f64 / 100.0).collect();
    assert!(starts.windows(2).all(|w| w[0] <= w[1]), "starts not monotonic: {starts:?}");
}

#[test]
fn align_words_empty_inputs_return_none() {
    assert!(align_words(&["hello"], &[]).is_none());
    assert!(align_words(&[], &[(1_000_000, "hello".to_string())]).is_none());
    assert!(align_words(&["[tag only]"], &[(1_000_000, "hello".to_string())]).is_none());
}

#[test]
fn lyrics_of_which_nothing_was_heard_are_not_aligned() {
    let heard = vec![(1_000_000, "something".to_string()), (2_000_000, "else".to_string())];
    assert!(align_words(&["hello world"], &heard).is_none());
    assert!(matching_blocks(&["hello", "world"], &["something", "else"]).is_empty());
    let body = r#"{"words":[{"word":"something","start":1.0},{"word":"else","start":2.0}]}"#;
    assert!(align(&["hello world"], body).is_none());
    assert!(align(&["something more"], body).is_some());
}

#[test]
fn a_line_between_two_timed_ones_is_placed_between_them() {
    let lines = ["first words", "nothing heard here", "last words"];
    let words = vec![
        (2_000_000, "first".to_string()),
        (3_000_000, "words".to_string()),
        (10_000_000, "last".to_string()),
        (11_000_000, "words".to_string()),
    ];
    let r = align_words(&lines, &words).unwrap();
    assert_eq!(r.lines[0].start, 200);
    assert_eq!(r.lines[1].start, 600);
    assert_eq!(r.lines[2].start, 1000);
    assert_eq!(r.overall_conf, 667);
}

#[test]
fn a_transcript_is_read_and_aligned() {
    let body = r#"{"words":[{"word":" Hello","start":1.25,"end":1.5},{"word":"world!","start":2,"end":2.4}]}"#;
    let words = transcribed_words(body).unwrap();
    assert_eq!(words, vec![(1_250_000, "hello".to_string()), (2_000_000, "world".to_string())]);
    let r = align(&["Hello, world"], body).unwrap();
    assert_eq!(r.lines[0].start, 125);
    assert_eq!(r.lines[0].end, 200);
    assert!(align(&["Hello, world"], "no json").is_none());
}

#[test]
fn models_that_transcribe_are_listed() {
    let body = r#"{"data":[{"id":"whisper-large-v3-turbo"},{"id":"llama-3"},{"id":"Systran/faster-WHISPER"}]}"#;
    assert_eq!(whisper_models(body), vec!["whisper-large-v3-turbo", "Systran/faster-WHISPER"]);
    assert!(whisper_models("[").is_empty());
}

#[test]
fn a_transcription_request_is_a_form() {
    let w = Whisper { url: "http://host:8080//".to_string(), model: DEFAULT_MODEL.to_string(), key: None };
    let body = String::from_utf8(whisper_request(&w, "a.opus", b"AUDIO")).unwrap();
    assert!(body.starts_with("--"));
    assert!(body.contains("filename=\"a.opus\"\r\nContent-Type: application/octet-stream\r\n\r\nAUDIO\r\n"));
    assert!(body.contains("name=\"model\"\r\n\r\nwhisper-large-v3-turbo\r\n"));
    assert!(body.contains("verbose_json"));
    assert_eq!(whisper_endpoint(&w.url), "http://host:8080/v1/audio/transcriptions");
    assert_eq!(models_endpoint(&w.url), "http://host:8080/v1/models");
    assert_eq!(bearer("k"), "Bearer k");
}
