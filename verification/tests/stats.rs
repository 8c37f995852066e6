use amdl::report::print_stats;
use amdl::stats::{better, bitrate_bucket, channel_label, classify, collect, probe, ranked, Tier};
use amdl::tags::{read_meta, Properties, Tag};
use amdl::ui::Console;

#[test]
fn classify_recognises_every_tier() {
    assert!(matches!(classify(b""), Tier::Nothing));
    assert!(matches!(classify(b"   \n  "), Tier::Nothing));
    assert!(matches!(classify(b"just some words\nno timestamps"), Tier::Plain));
    assert!(matches!(classify(b"[00:12.30]a line\n[00:15.00]next"), Tier::Synced));
    assert!(matches!(classify(b"[re:amdl-align]\n[00:12.30]a line"), Tier::Generated));
}

#[test]
fn tier_ordering_picks_the_better_channel() {
    assert!(Tier::Synced > Tier::Generated);
    assert!(Tier::Generated > Tier::Plain);
    assert!(Tier::Plain > Tier::Nothing);
    assert_eq!(Tier::Plain.max(Tier::Synced), Tier::Synced);
    assert_eq!(better(Tier::Plain, Tier::Synced), Tier::Synced);
}

#[test]
fn bitrate_buckets_map_vbr_near_nominal() {
    assert_eq!(bitrate_bucket(96), "≤112k");
    assert_eq!(bitrate_bucket(129), "128k");
    assert_eq!(bitrate_bucket(190), "192k");
    assert_eq!(bitrate_bucket(256), "256k");
    assert_eq!(bitrate_bucket(1000), ">320k");
}

fn track(artist: &str, album: &str, kbps: u32) -> amdl::tags::Meta {
    let mut t = Tag::default();
    t.title = Some("T".to_string());
    t.artist = Some(artist.to_string());
    t.album = Some(album.to_string());
    let p = Properties {
        millis: 60_000,
        audio_bitrate: Some(kbps),
        overall_bitrate: None,
        sample_rate: Some(48_000),
        channels: Some(2),
    };
    read_meta(p, Some(&t))
}

#[test]
fn stats_reads_the_fixture() {
    let m = track("Test Artist", "Test Album", 128);
    let s = collect("/lib", &[probe("/lib/track.opus", 1000, None, Some(&m))]);
    assert_eq!(s.tracks, 1);
    assert_eq!(s.artists, 1);
    assert_eq!(s.missing_artist, 0);
}

#[test]
fn the_parts_of_an_overview_add_up() {
    let a = track("Artist", "Album", 130);
    let b = track("ARTIST ", "Other", 190);
    let records = vec![
        probe("/lib/a.opus", 10, Some(b"[00:01.00]x"), Some(&a)),
        probe("/lib/b.MP3", 20, Some(b"words"), Some(&b)),
        probe("/lib/c.opus", 30, None, None),
    ];
    let s = collect("/lib", &records);
    assert_eq!((s.tracks, s.unreadable, s.total_bytes, s.total_duration_secs), (3, 1, 60, 120));
    assert_eq!((s.artists, s.albums), (1, 2));
    assert_eq!(s.formats[0].name, "opus");
    assert_eq!(s.formats[0].count, 2);
    assert_eq!((s.bitrate_kbps.min, s.bitrate_kbps.avg, s.bitrate_kbps.max), (130, 160, 190));
    assert_eq!(s.lyrics.timed_anywhere + s.lyrics.plain_only + s.lyrics.none_anywhere, s.tracks);
    assert_eq!((s.lyrics.timed_anywhere, s.lyrics.plain_only, s.lyrics.none_anywhere), (1, 1, 1));
    assert_eq!(s.with_cover + s.without_cover, s.tracks);
    for d in [&s.formats, &s.sample_rates, &s.channels] {
        assert_eq!(d.iter().map(|c| c.count).sum::<usize>(), s.tracks);
    }
    let known: usize = s.bitrate_kbps.distribution.iter().map(|c| c.count).sum();
    assert_eq!(known + s.bitrate_kbps.unknown, s.tracks);

    let lines = print_stats(&Console { verbosity: 1, color_out: false, color_err: false }, &s);
    assert_eq!(lines[0], "⚠ stats · /lib · 60 B · 2m");
    assert_eq!(lines[1], "    tracks 3  ·  artists 1  ·  albums 2  ·  no-cover 3  ·  unreadable 1");
    assert!(lines.contains(&"    opus       2".to_string()));
    assert!(lines.contains(&"    min 130  ·  avg 160  ·  max 190".to_string()));
    assert!(lines.contains(&"    coverage  timed 1  ·  plain-only 1  ·  none 1".to_string()));
}

#[test]
fn counts_are_ranked_by_number_then_name() {
    let names: Vec<String> = ["b", "a", "c", "a", "b"].iter().map(|s| s.to_string()).collect();
    let got: Vec<(String, usize)> = ranked(&names).into_iter().map(|c| (c.name, c.count)).collect();
    assert_eq!(got, vec![("a".to_string(), 2), ("b".to_string(), 2), ("c".to_string(), 1)]);
}

#[test]
fn channels_have_names() {
    assert_eq!(channel_label(Some(1)), "mono");
    assert_eq!(channel_label(Some(2)), "stereo");
    assert_eq!(channel_label(Some(6)), "6 ch");
}
