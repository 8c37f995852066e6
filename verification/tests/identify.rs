use amdl::identify::{
    fingerprint, has_all_tags, lookup, lookup_form, matched, skips, summarize, verdict, wait_ms, Fingerprint,
    LookupError, Match, Opts, Outcome, Tried, Verdict, DEFAULT_MIN_SCORE, SCORE_PLACES,
};
use amdl::json::parse_scaled;
use amdl::report::print_identify;
use amdl::tags::{read_basic, write_fields, Tag};
use amdl::ui::Console;

#[test]
fn a_fingerprint_is_read() {
    let f = fingerprint(r#"{"duration": 183.5, "fingerprint": "AQAB"}"#).unwrap();
    assert_eq!((f.duration, f.text.as_str()), (184, "AQAB"));
    assert_eq!(fingerprint(r#"{"fingerprint": "AQAB"}"#).unwrap().duration, 0);
    assert!(fingerprint(r#"{"duration": 1, "fingerprint": ""}"#).is_none());
    assert!(fingerprint(r#"{"duration": 1}"#).is_none());
    assert!(fingerprint("").is_none());
}

#[test]
fn a_lookup_sends_a_form() {
    let form = lookup_form("KEY", &Fingerprint { duration: 184, text: "AQAB".to_string() });
    let got: Vec<(&str, &str)> = form.iter().map(|(a, b)| (a.as_str(), b.as_str())).collect();
    assert_eq!(
        got,
        vec![("client", "KEY"), ("duration", "184"), ("fingerprint", "AQAB"), ("meta", "recordings releasegroups")]
    );
}

#[test]
fn the_first_result_with_a_recording_counts() {
    let body = r#"{"status":"ok","results":[
        {"score":0.99},
        {"score":0.95,"recordings":[{"title":"T","artists":[{"name":"A"}],"releasegroups":[
            {"type":"Album","secondarytypes":["Compilation"],"title":"Hits"},
            {"type":"Album","title":"Studio"}]}]}]}"#;
    let m = lookup(body).unwrap().unwrap();
    assert_eq!((m.artist.as_deref(), m.title.as_deref(), m.album.as_deref()), (Some("A"), Some("T"), Some("Studio")));
    assert_eq!(m.score, 950_000_000_000_000_000);
    let only = r#"{"status":"ok","results":[{"score":1,"recordings":[{"releasegroups":[
        {"type":"Album","secondarytypes":["Compilation"],"title":"Hits"}]}]}]}"#;
    assert_eq!(lookup(only).unwrap().unwrap().album.as_deref(), Some("Hits"));
}

#[test]
fn a_lookup_can_fail() {
    assert!(matches!(lookup("x"), Err(LookupError::Unreadable)));
    match lookup(r#"{"status":"error","error":{"message":"invalid API key"}}"#) {
        Err(LookupError::Refused(why)) => assert_eq!(why, "acoustid: invalid API key"),
        other => panic!("{other:?}"),
    }
    match lookup("{}") {
        Err(LookupError::Refused(why)) => assert_eq!(why, "acoustid: unknown"),
        other => panic!("{other:?}"),
    }
    assert!(lookup(r#"{"status":"ok","results":[]}"#).unwrap().is_none());
    assert!(lookup(r#"{"status":"ok"}"#).unwrap().is_none());
}

fn opts(apply: bool, dry_run: bool) -> Opts {
    Opts { apply, dry_run, min_score: DEFAULT_MIN_SCORE, skip_tagged: true }
}

#[test]
fn weak_matches_are_never_applied() {
    assert_eq!(verdict(&opts(true, false), 900_000_000_000_000_000), Verdict::Apply);
    assert_eq!(verdict(&opts(true, false), 899_999_999_999_999_999), Verdict::TooWeak);
    assert_eq!(verdict(&opts(true, true), 900_000_000_000_000_000), Verdict::WouldApply);
    assert_eq!(verdict(&opts(false, false), 1_000_000_000_000_000_000), Verdict::Report);
    let strict = parse_scaled("0.9000001", SCORE_PLACES).unwrap();
    assert_eq!(verdict(&Opts { min_score: strict, ..opts(true, false) }, DEFAULT_MIN_SCORE), Verdict::TooWeak);
}

#[test]
fn files_with_their_tags_can_be_left_alone() {
    let mut t = Tag::default();
    write_fields(&mut t, Some("T"), Some("A"), Some(""));
    assert!(!has_all_tags(&read_basic(Some(&t))));
    write_fields(&mut t, None, None, Some("B"));
    assert!(has_all_tags(&read_basic(Some(&t))));
    assert!(skips(&opts(true, false), &read_basic(Some(&t))));
    assert!(!skips(&Opts { skip_tagged: false, ..opts(true, false) }, &read_basic(Some(&t))));
}

#[test]
fn lookups_keep_their_distance() {
    assert_eq!(wait_ms(None), 0);
    assert_eq!(wait_ms(Some(0)), 350);
    assert_eq!(wait_ms(Some(349)), 1);
    assert_eq!(wait_ms(Some(350)), 0);
}

#[test]
fn every_file_is_counted_once() {
    let m = || Match { artist: Some("A".into()), title: None, album: None, score: 955_000_000_000_000_000 };
    let tried = |file: &str, outcome: Outcome| Tried { file: file.to_string(), outcome };
    let all = vec![
        tried("a", matched(m(), Verdict::Apply, true)),
        tried("b", matched(m(), Verdict::TooWeak, false)),
        tried("c", matched(m(), Verdict::Apply, false)),
        tried("d", Outcome::NoMatch),
        tried("e", Outcome::SkippedTagged),
        tried("f", Outcome::Failed),
    ];
    let r = summarize(&all, false);
    assert_eq!((r.total, r.matched, r.applied, r.skipped_low_score), (6, 3, 1, 1));
    assert_eq!(r.matched + r.no_match + r.skipped_tagged + r.failed, r.total);
    assert_eq!(r.results.len(), 4);
    let lines = print_identify(&Console { verbosity: 1, color_out: false, color_err: false }, &r);
    assert_eq!(lines[0], "⚠ identify");
    assert!(lines[1].starts_with("    matched 3/6  ·  applied 1"));
    assert!(lines.contains(&"  a → A — ? · ? (96%)".to_string()));
}
