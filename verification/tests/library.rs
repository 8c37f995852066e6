use amdl::convert::{encoder_args, mirrors_lrc, source_exts, step, summarize as sum_up, workers, Outcome, Report, Step};
use amdl::doctor::{decodes_cleanly, duration, examine, scan, Examined, Finding, Source};
use amdl::download::{attempts, gamdl_args, swap_storefront, tried, Tried};
use amdl::report::{print_convert, print_health};
use amdl::tags::{read_basic, set_cover, write_fields, Picture, Tag, FRONT_COVER};
use amdl::ui::Console;
use amdl::validate::{probe_bad, probe_ok};

fn plain() -> Console {
    Console { verbosity: 1, color_out: false, color_err: false }
}

#[test]
fn files_are_examined() {
    let mut t = Tag::default();
    let bare = read_basic(Some(&t));
    assert_eq!(examine(None, &bare, None, None), vec![Finding::Unreadable, Finding::MissingCover, Finding::MissingTags]);
    write_fields(&mut t, Some("T"), Some("A"), Some("B"));
    set_cover(&mut t, &Picture { kind: FRONT_COVER, mime: None, description: None, data: vec![1] });
    let good = read_basic(Some(&t));
    assert!(examine(Some(10_000_000), &good, Some(true), Some(11_500_000)).is_empty());
    assert_eq!(examine(Some(10_000_000), &good, None, Some(11_500_001)), vec![Finding::Truncated]);
    assert_eq!(examine(Some(10_000_000), &good, None, Some(8_000_000)), vec![Finding::Truncated]);
    assert_eq!(examine(Some(10_000_000), &good, Some(false), None), vec![Finding::Corrupt]);
    assert_eq!(examine(None, &good, Some(false), Some(1)), vec![Finding::Unreadable]);
}

#[test]
fn lengths_are_read_from_the_probe() {
    assert_eq!(duration("183.456000\n"), Some(183_456_000));
    assert_eq!(duration("N/A\n"), None);
    assert_eq!(duration(""), None);
}

#[test]
fn a_decode_is_judged() {
    assert!(decodes_cleanly(true, true, b""));
    assert!(!decodes_cleanly(true, true, b"error"));
    assert!(!decodes_cleanly(true, false, b""));
    assert!(decodes_cleanly(false, false, b""));
    assert!(probe_ok(true, ""));
    assert!(!probe_ok(true, "some error"));
    assert!(!probe_ok(true, "x: Prediction not allowed in AAC-LC."));
    assert!(!probe_ok(false, ""));
    let tracks = vec!["a".to_string(), "b".to_string()];
    assert_eq!(probe_bad(&tracks, &[true, false]), vec!["b"]);
}

#[test]
fn the_health_of_a_library_is_listed_in_order() {
    let e = |name: &str, findings: Vec<Finding>| Examined { name: name.to_string(), findings };
    let h = scan(
        &[e("b", vec![Finding::MissingCover]), e("a", vec![Finding::MissingCover, Finding::Corrupt]), e("c", vec![])],
        &[Source { name: "z".into(), has_opus: false }, Source { name: "y".into(), has_opus: true }],
    );
    assert_eq!((h.total, h.missing_cover.clone(), h.corrupt.clone()), (3, vec!["a".into(), "b".into()], vec!["a".into()]));
    assert_eq!(h.source_without_opus, vec!["z"]);
    assert!(!h.is_clean());
    assert!(scan(&[e("c", vec![])], &[]).is_clean());
    let lines = print_health(&plain(), &h);
    assert_eq!(lines[0], "⚠ doctor · 3 opus scanned");
    assert!(lines.contains(&"  missing cover:".to_string()));
    let many: Vec<Examined> = (0..10).map(|i| e(&i.to_string(), vec![Finding::MissingTags])).collect();
    let lines = print_health(&plain(), &scan(&many, &[]));
    assert_eq!(lines.last().unwrap(), "    … and 2 more (--json for all, -v to list)");
}

#[test]
fn what_is_there_is_left_alone() {
    assert_eq!(step("/a/x.m4a", true), Step::Skip);
    assert_eq!(step("/a/x.opus", false), Step::Copy);
    assert_eq!(step("/a/x.OPUS", false), Step::Encode);
    assert_eq!(step("/a/x.flac", false), Step::Encode);
    assert!(mirrors_lrc(true, false) && !mirrors_lrc(true, true) && !mirrors_lrc(false, false));
    assert_eq!(source_exts(), vec!["m4a", "mp3", "flac", "opus"]);
    assert_eq!((workers(0), workers(3)), (1, 3));
}

#[test]
fn the_encoder_takes_only_the_audio() {
    let args = encoder_args("in.m4a", "out.opus", "192k").join(" ");
    assert_eq!(
        args,
        "-hide_banner -loglevel error -y -i in.m4a -map 0:a:0 -c:a libopus -b:a 192k -vbr on -application audio \
         -compression_level 10 -map_metadata 0 out.opus"
    );
}

#[test]
fn conversions_are_counted() {
    let o = |step: Step, cover: bool, lrc: bool| Some(Outcome { step, cover, lrc });
    let r = sum_up(&[
        o(Step::Encode, true, true),
        o(Step::Copy, true, false),
        o(Step::Skip, true, true),
        None,
    ]);
    assert_eq!(r, Report { converted: 1, copied: 1, skipped: 1, failed: 1, with_cover: 2, lrc_copied: 2 });
    let lines = print_convert(&plain(), &r);
    assert_eq!(lines[0], "⚠ convert · 2 of 4 → Opus");
    assert_eq!(sum_up(&[]), Report::default());
}

#[test]
fn stores_are_swapped_and_tried_in_turn() {
    let url = "https://music.apple.com/us/album/x/1";
    assert_eq!(swap_storefront(url, "dk"), "https://music.apple.com/dk/album/x/1");
    assert_eq!(swap_storefront("https://music.apple.com/us", "dk"), "https://music.apple.com/us");
    assert_eq!(swap_storefront("https://example.com/us/a", "dk"), "https://example.com/us/a");
    let stores = vec!["dk".to_string(), "gb".to_string()];
    assert_eq!(attempts(url, &stores)[1], "https://music.apple.com/gb/album/x/1");
    assert_eq!(
        gamdl_args("/w", "/c", true, "u"),
        vec!["--output-path", "/w", "--cookies-path", "/c", "--artist-auto-select", "main-albums", "u"]
    );
    let before = vec!["a".to_string()];
    let after = vec!["a".to_string(), "b".to_string()];
    assert!(matches!(tried(true, &before, &after), Tried::Tracks(v) if v == vec!["b"]));
    assert!(matches!(tried(false, &before, &after), Tried::Next));
    assert!(matches!(tried(true, &after, &after), Tried::Next));
}
