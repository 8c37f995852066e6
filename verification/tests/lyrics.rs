use amdl::lyrics::{
    after, align_answer, align_endpoint, align_request, asks_next, best_of, drops_sidecar, fmt_ts, gate, is_generated,
    is_synced, lookup_query, lrcapi_endpoint, parse_lrcapi, parse_one, parse_search, settle, should_embed, sources,
    tally_up, title_says_instrumental, wants_align, wants_fetch, Action, Fetched, Gate, Options, Outcome, Sidecar,
    Source, Tally, ALIGN_MARKER,
};

#[test]
fn lrcapi_parse_prefers_synced_then_plain() {
    let body = r#"[{"lyrics":"plain words\nno timing"},{"lyrics":"[00:01.00]hi\n[00:03.00]yo"}]"#;
    assert!(matches!(parse_lrcapi(body), Fetched::Synced(_)));
    assert!(matches!(parse_lrcapi(r#"[{"lyrics":"just words"}]"#), Fetched::Plain(_)));
    assert!(matches!(parse_lrcapi(r#"[]"#), Fetched::NotFound));
    assert!(matches!(parse_lrcapi(r#"[{"lyrics":"   "}]"#), Fetched::NotFound));
    assert!(matches!(parse_lrcapi("not json"), Fetched::NotFound));
}

#[test]
fn fallback_merge_prefers_synced_then_keeps_primary() {
    assert!(matches!(best_of(Fetched::Plain("p".into()), Fetched::Synced("s".into())), Fetched::Synced(_)));
    assert!(matches!(best_of(Fetched::Synced("s".into()), Fetched::Plain("p".into())), Fetched::Synced(_)));
    assert!(matches!(best_of(Fetched::NotFound, Fetched::Plain("p".into())), Fetched::Plain(_)));
    assert!(matches!(best_of(Fetched::Plain("p".into()), Fetched::NotFound), Fetched::Plain(_)));
    match best_of(Fetched::Plain("A".into()), Fetched::Plain("B".into())) {
        Fetched::Plain(s) => assert_eq!(s, "A", "tie keeps the primary source"),
        _ => panic!("expected plain"),
    }
}

const PLAIN: &str = "just words\nno timing";
const SYNCED: &str = "[00:01.00]timed line\n[00:04.00]second";
const SYNCED2: &str = "[00:02.00]different timing\n[00:05.00]second";

#[test]
fn embed_when_nothing_present() {
    assert!(should_embed(None, PLAIN, false));
    assert!(should_embed(None, SYNCED, false));
}

#[test]
fn embed_never_downgrades_or_churns() {
    assert!(!should_embed(Some(SYNCED), PLAIN, false));
    assert!(!should_embed(Some(SYNCED), SYNCED2, false));
    assert!(!should_embed(Some(SYNCED), SYNCED, false));
    assert!(!should_embed(Some(PLAIN), PLAIN, false));
    assert!(!should_embed(Some(PLAIN), "other plain text", false));
}

#[test]
fn embed_upgrades_plain_to_synced() {
    assert!(should_embed(Some(PLAIN), SYNCED, false));
}

#[test]
fn force_overrides_never_downgrade() {
    assert!(should_embed(Some(SYNCED), PLAIN, true));
    assert!(should_embed(Some(SYNCED), SYNCED2, true));
    assert!(!should_embed(Some(SYNCED), SYNCED, true));
}

#[test]
fn synced_detects_timestamp_tags() {
    assert!(is_synced(b"[00:12.34]a line\n[00:15.00]another"));
    assert!(is_synced(b"[01:02]no centiseconds is still timed"));
    assert!(is_synced(b"[ar:Artist]\n[ti:Title]\n[00:01.00]first sung line"));
}

#[test]
fn plain_and_metadata_only_are_not_synced() {
    assert!(!is_synced(b"just a plain lyric\nsecond line, no timing"));
    assert!(!is_synced(b""));
    assert!(!is_synced(b"[ar:Rick Astley]\n[length:03:33]\nplain words here"));
    assert!(!is_synced(b"[chorus]\nwords"));
}

#[test]
fn title_instrumental_is_explicit_and_conservative() {
    for t in [
        "What The Hell (Instrumental)",
        "The Family Madrigal (Instrumental Version)",
        "Wizards in Winter (Instrumental)",
        "Some Song [Instrumental]",
        "A Tune - Instrumental",
    ] {
        assert!(title_says_instrumental(t), "{t} should read as instrumental");
    }
    for t in [
        "Intro",
        "Waterline (intro)",
        "Nest (Contains Instrumental Excerpt)",
        "Instrumental Break Up",
        "My Favourite Things",
    ] {
        assert!(!title_says_instrumental(t), "{t} must not read as instrumental");
    }
}

fn opts(upgrade: bool) -> Options {
    Options { upgrade_synced: upgrade, embed: false, force_embed: false, align: false }
}

#[test]
fn bytes_that_are_no_text_are_not_synced() {
    assert!(!is_synced(&[b'[', b'0', b'0', b':', 0xff]));
}

#[test]
fn an_instrumental_is_never_looked_up() {
    assert_eq!(gate(true, Some("Any Title")), Gate::Skip);
    assert_eq!(gate(false, Some("Song (Instrumental)")), Gate::Mark);
    assert_eq!(gate(false, Some("Song")), Gate::Pass);
    assert_eq!(gate(false, None), Gate::Pass);
}

#[test]
fn a_sidecar_is_only_replaced_by_something_better() {
    let plain = Sidecar::Bytes(PLAIN.as_bytes().to_vec());
    let synced = Sidecar::Bytes(SYNCED.as_bytes().to_vec());
    assert!(wants_fetch(&plain, opts(true)) && !wants_fetch(&plain, opts(false)));
    assert!(!wants_fetch(&synced, opts(true)));
    assert!(matches!(settle(&plain, opts(true), Some(Fetched::Synced(SYNCED.into())), None), Action::Replace(_)));
    assert!(matches!(settle(&plain, opts(true), Some(Fetched::Plain("x".into())), None), Action::Leave));
    assert!(matches!(settle(&synced, opts(true), Some(Fetched::Synced(SYNCED2.into())), None), Action::Leave));
    assert!(matches!(settle(&Sidecar::Unreadable, opts(true), Some(Fetched::Synced(SYNCED.into())), None), Action::Leave));
}

#[test]
fn lyrics_that_were_generated_give_way_to_trusted_ones() {
    let generated = Sidecar::Bytes(format!("{ALIGN_MARKER}\n{SYNCED}").into_bytes());
    assert!(wants_fetch(&generated, opts(true)));
    assert!(matches!(settle(&generated, opts(true), Some(Fetched::Synced(SYNCED.into())), None), Action::Replace(_)));
}

#[test]
fn a_missing_sidecar_is_filled_from_what_there_is() {
    let a = Sidecar::Absent;
    assert!(matches!(settle(&a, opts(true), Some(Fetched::Synced("s".into())), None), Action::CreateSynced(_)));
    assert!(matches!(settle(&a, opts(true), Some(Fetched::Plain("p".into())), None), Action::CreatePlain(_)));
    assert!(matches!(settle(&a, opts(true), Some(Fetched::Instrumental), None), Action::MarkInstrumental));
    assert!(matches!(settle(&a, opts(true), Some(Fetched::NotFound), Some("words")), Action::UseEmbedded(_)));
    assert!(matches!(settle(&a, opts(true), Some(Fetched::NotFound), Some("  ")), Action::NotFound));
    assert!(matches!(settle(&a, opts(true), None, None), Action::NoMeta));
}

#[test]
fn what_was_written_is_counted() {
    let s = after(&Sidecar::Absent, Action::CreateSynced("s".into()), true);
    assert_eq!(s.content.as_deref(), Some("s"));
    assert_eq!(s.tally, Some(Tally::OkSynced));
    let r = tally_up(&[
        Outcome { tally: Some(Tally::OkSynced), aligned: false, embedded: true },
        Outcome { tally: Some(Tally::Skipped), aligned: true, embedded: false },
        Outcome { tally: Some(Tally::NoMeta), aligned: false, embedded: false },
    ]);
    assert_eq!((r.ok_synced, r.aligned, r.embedded, r.no_meta), (1, 1, 1, 1));
    assert_eq!(r.skipped, 0);
}

#[test]
fn alignment_is_for_plain_lyrics() {
    let o = Options { align: true, ..opts(true) };
    assert!(wants_align(o, true, Some(PLAIN)));
    assert!(!wants_align(o, true, Some(SYNCED)));
    assert!(!wants_align(o, false, Some(PLAIN)));
    assert!(!wants_align(o, true, None));
    assert!(!wants_align(opts(true), true, Some(PLAIN)));
}

#[test]
fn aligned_lyrics_are_assembled_and_marked() {
    let body = r#"{"overall_conf":0.9,"lines":[{"text":"second","start":61.5},{"text":"first","start":1.25}]}"#;
    let lrc = align_answer(body).unwrap();
    assert!(is_generated(&lrc) && is_synced(lrc.as_bytes()));
    let timed: Vec<&str> = lrc.lines().filter(|l| l.starts_with("[0")).collect();
    assert_eq!(timed, vec!["[00:01.25]first", "[01:01.50]second"]);
    assert_eq!(fmt_ts(61_500_000), "01:01.50");
    assert_eq!((fmt_ts(125_000), fmt_ts(375_000), fmt_ts(125_001)), ("00:00.12".into(), "00:00.38".into(), "00:00.13".into()));
    assert!(align_answer(r#"{"overall_conf":0.4,"lines":[{"text":"x","start":1}]}"#).is_none());
    assert!(align_answer("no json").is_none());
}

#[test]
fn a_lookup_answer_is_classified() {
    assert!(matches!(parse_one(r#"{"syncedLyrics":"[00:01.00]a","plainLyrics":"a"}"#), Some(Fetched::Synced(_))));
    assert!(matches!(parse_one(r#"{"syncedLyrics":null,"plainLyrics":"a"}"#), Some(Fetched::Plain(_))));
    assert!(matches!(parse_one(r#"{"instrumental":true}"#), Some(Fetched::Instrumental)));
    assert!(parse_one("x").is_none());
}

#[test]
fn a_search_hit_must_agree_in_length() {
    let body = r#"[{"duration":300,"albumName":"A","syncedLyrics":"[00:01.00]wrong"},
                   {"duration":182.4,"albumName":"A","plainLyrics":"right"}]"#;
    assert!(matches!(parse_search(body, Some("A"), Some(180)), Fetched::Plain(s) if s == "right"));
    assert!(matches!(parse_search(body, Some("A"), Some(100)), Fetched::NotFound));
}

#[test]
fn a_synced_hit_ends_the_search() {
    assert!(!asks_next(&Fetched::Synced("s".into())));
    assert!(asks_next(&Fetched::Plain("p".into())));
    assert_eq!(sources(Some(true)), (Source::LrcApi, Some(Source::Lrclib)));
    assert_eq!(sources(None), (Source::Lrclib, None));
}

#[test]
fn requests_are_put_together() {
    let q = lookup_query("A", "T", Some("B"), Some(180));
    let pairs: Vec<(&str, &str)> = q.iter().map(|p| (p.0.as_str(), p.1.as_str())).collect();
    assert!(pairs.contains(&("artist_name", "A")) && pairs.contains(&("duration", "180")));
    assert!(lrcapi_endpoint("http://h/").starts_with("http://h/"));
    assert!(align_endpoint("http://h/").starts_with("http://h/"));
    let body = String::from_utf8(align_request("a.opus", b"AUDIO", "words")).unwrap();
    assert!(body.contains("AUDIO") && body.contains("words") && body.contains("a.opus"));
}

#[test]
fn marking_by_hand_drops_the_sidecar() {
    assert!(drops_sidecar(false, true));
    assert!(!drops_sidecar(true, true) && !drops_sidecar(false, false));
}
