use amdl::commands::{
    bitrate, given_or, human_bytes, human_duration, is_artist_url, is_mutating, journals, llm_guide, lyrics_options,
    paste_mode, pick, read_pasted, rel_time, second_server, shell_quote, shows_tip, storefronts, undo_asks, verbosity,
    Command, Paste, Pasted, Pick, SecondServer, Topic,
};
use amdl::dedup::{run, Track};
use amdl::journal::{begin, run_info, undo, Ending, Undone};
use amdl::report::{listed_run_line, print_covers, print_dedup, print_recover, print_undo, run_line, straggler_line, tag_message};
use amdl::ui::{
    detail, err, info, is_quiet, is_verbose, metric, ok, read_block, result, set_verbosity, takes_color, tally, warn,
    Console, Tone,
};

fn plain(verbosity: u8) -> Console {
    Console { verbosity, color_out: false, color_err: false }
}

#[test]
fn log_lines_follow_the_verbosity() {
    let mut c = plain(1);
    assert_eq!(info(&c, "m").as_deref(), Some("▸ m"));
    assert_eq!(ok(&c, "m").as_deref(), Some("✓ m"));
    assert_eq!(warn(&c, "m").as_deref(), Some("⚠ m"));
    assert_eq!(err(&c, "m"), "✗ m");
    assert_eq!(detail(&c, "m"), None);
    set_verbosity(&mut c, 0);
    assert!(is_quiet(&c) && !is_verbose(&c));
    assert_eq!((info(&c, "m"), ok(&c, "m"), warn(&c, "m")), (None, None, None));
    assert_eq!(err(&c, "m"), "✗ m");
    set_verbosity(&mut c, 2);
    assert!(is_verbose(&c));
    assert_eq!(detail(&c, "m").as_deref(), Some("    m"));
    let color = Console { verbosity: 1, color_out: true, color_err: true };
    assert_eq!(info(&color, "m").as_deref(), Some("\x1b[1;34m▸ m\x1b[0m"));
    assert_eq!(err(&color, "m"), "\x1b[1;31m✗ m\x1b[0m");
    assert!(takes_color(false, true) && !takes_color(true, true) && !takes_color(false, false));
}

#[test]
fn a_problem_shows_in_the_headline() {
    let good = [tally("done", 3, Tone::Good), tally("failed", 0, Tone::Bad)];
    assert_eq!(result(&plain(0), "run", false, &good, &[]), vec!["✓ run"]);
    let bad = [tally("failed", 1, Tone::Bad)];
    assert_eq!(result(&plain(0), "run", true, &bad, &[]), vec!["⚠ run [dry-run]"]);
    let hints = vec!["do this".to_string()];
    assert_eq!(
        result(&plain(1), "run", false, &bad, &hints),
        vec!["⚠ run", "    failed 1", "    → do this"]
    );
    let color = Console { verbosity: 1, color_out: true, color_err: false };
    assert_eq!(
        result(&color, "run", true, &[metric("m", "1/2", Tone::Warn)], &[]),
        vec!["\x1b[1;32m✓ run\x1b[0m \x1b[90m[dry-run]\x1b[0m", "    m \x1b[1;33m1/2\x1b[0m"]
    );
    assert_eq!(Tone::Dim.code(), "90");
}

#[test]
fn a_block_ends_with_a_blank_line() {
    let l = |x: &[&str]| x.iter().map(|s| s.to_string()).collect::<Vec<_>>();
    assert_eq!(read_block(&l(&["a", "b", " ", "c"])), "a\nb\n");
    assert_eq!(read_block(&l(&["", "a"])), "\na\n");
    assert_eq!(read_block(&[]), "");
}

#[test]
fn settings_come_from_the_command_line_first() {
    let s = |x: &str| Some(x.to_string());
    assert_eq!(given_or(s("a"), s("b")), s("a"));
    assert_eq!(given_or(None, s("b")), s("b"));
    assert_eq!(bitrate(None, None), "192k");
    assert_eq!(bitrate(None, s("96k")), "96k");
    assert_eq!(storefronts("dk", "us, gb,,"), vec!["dk", "us", "gb"]);
    assert_eq!((verbosity(true, false), verbosity(false, true), verbosity(false, false)), (0, 2, 1));
    assert!(is_artist_url("https://music.apple.com/us/artist/x") && !is_artist_url("https://music.apple.com/us/album/x"));
}

#[test]
fn only_commands_that_write_are_journaled() {
    for c in [Command::Download, Command::Convert, Command::Covers, Command::Lyrics, Command::Tag, Command::Identify, Command::Recover] {
        assert!(is_mutating(c) && journals(c, false) && !journals(c, true));
    }
    for c in [Command::Doctor, Command::Stats, Command::Config, Command::Configure, Command::Dedup, Command::Undo, Command::Cookies, Command::Completions, Command::Man] {
        assert!(!is_mutating(c));
    }
}

#[test]
fn lyrics_flags_come_to_options() {
    let o = lyrics_options(false, false, true, false, true);
    assert!(o.upgrade_synced && o.embed && o.force_embed && o.align);
    let o = lyrics_options(true, false, false, true, true);
    assert!(!o.upgrade_synced && !o.embed && !o.align);
    assert!(shows_tip(false, true, false, false) && !shows_tip(true, true, false, false));
    assert!(!shows_tip(false, false, false, false) && !shows_tip(false, true, false, true));
    assert!(shows_tip(false, false, true, false) && !shows_tip(true, false, true, false));
    assert_eq!(second_server(true, true), SecondServer::Used);
    assert_eq!(second_server(true, false), SecondServer::NoKey);
    assert_eq!(second_server(false, true), SecondServer::Unset);
    assert_eq!(paste_mode(false, true, true), Paste::FromFile);
    assert_eq!(paste_mode(false, false, true), Paste::Interactive);
    assert_eq!(paste_mode(true, true, true), Paste::No);
    assert!(undo_asks(false, false, false, true) && !undo_asks(true, false, false, true));
}

#[test]
fn pasted_lines_are_read() {
    assert!(matches!(read_pasted("2\thttp://x ", 3, true), Pasted::Embed(1, u) if u == "http://x"));
    assert!(matches!(read_pasted("2  http://x", 3, false), Pasted::Embed(1, u) if u == "http://x"));
    assert!(matches!(read_pasted("# 2 http://x", 3, true), Pasted::Skip));
    assert!(matches!(read_pasted("# 2 http://x", 3, false), Pasted::NoNumber));
    assert!(matches!(read_pasted("  ", 3, true), Pasted::Skip));
    assert!(matches!(read_pasted("x http://x", 3, true), Pasted::NoNumber));
    assert!(matches!(read_pasted("0 http://x", 3, true), Pasted::OutOfRange(0)));
    assert!(matches!(read_pasted("4 http://x", 3, true), Pasted::OutOfRange(4)));
    assert!(matches!(read_pasted("3", 3, true), Pasted::NoUrl));
}

#[test]
fn answers_pick_a_run() {
    assert_eq!(pick("", 2), Pick::Undo(0));
    assert_eq!(pick(" 2 ", 2), Pick::Undo(1));
    assert_eq!(pick("3", 2), Pick::Again);
    assert_eq!(pick("0", 2), Pick::Again);
    assert_eq!(pick("d", 2), Pick::Preview(0));
    assert_eq!(pick("D 2", 2), Pick::Preview(1));
    assert_eq!(pick("Q", 2), Pick::Cancel);
    assert_eq!(pick("x", 2), Pick::Again);
}

#[test]
fn sizes_and_times_are_written() {
    assert_eq!(human_bytes(0), "0 B");
    assert_eq!(human_bytes(1023), "1023 B");
    assert_eq!(human_bytes(1024), "1.0 KiB");
    assert_eq!(human_bytes(1536), "1.5 KiB");
    assert_eq!(human_bytes(1280), "1.2 KiB");
    assert_eq!(human_bytes(1792), "1.8 KiB");
    assert_eq!(human_bytes(13_207_024_435), "12.3 GiB");
    assert_eq!(human_bytes(5 << 50), "5120.0 TiB");
    for n in [1u64, 1100, 99_999, 1_234_567, 123_456_789_012, 1 << 45] {
        let mut v = n as f64;
        let mut u = 0;
        while v >= 1024.0 && u < 4 {
            v /= 1024.0;
            u += 1;
        }
        let want = if u == 0 { format!("{n} B") } else { format!("{v:.1} {}", ["B", "KiB", "MiB", "GiB", "TiB"][u]) };
        assert_eq!(human_bytes(n), want);
    }
    assert_eq!(human_duration(59), "0m");
    assert_eq!(human_duration(3 * 3600 + 240), "3h 4m");
    assert_eq!(human_duration(12 * 86_400 + 3 * 3600 + 240), "12d 3h 4m");
    assert_eq!(rel_time(100, 50), "just now");
    assert_eq!(rel_time(0, 44), "just now");
    assert_eq!(rel_time(0, 45), "a min ago");
    assert_eq!(rel_time(0, 150), "3 min ago");
    assert_eq!(rel_time(0, 7199), "an hour ago");
    assert_eq!(rel_time(0, 9000), "3 h ago");
    assert_eq!(rel_time(0, 86_400), "yesterday");
    assert_eq!(rel_time(0, 200_000), "2 days ago");
}

#[test]
fn paths_are_quoted_for_a_shell() {
    assert_eq!(shell_quote("a b"), "'a b'");
    assert_eq!(shell_quote("it's"), "'it'\\''s'");
    assert_eq!(shell_quote(""), "''");
}

#[test]
fn the_guide_leaves_hidden_commands_out() {
    let t = |name: &str, hidden: bool| Topic { name: name.to_string(), hidden, help: format!("help of {name}\n") };
    let g = llm_guide("1.0", "https://r", "long help\n", &[t("tag", false), t("man", true)], "# Workflows");
    assert!(g.starts_with("amdl 1.0 — LLM guide\nRepository: https://r"));
    assert!(g.contains("amdl tag ----") && g.contains("help of tag") && !g.contains("help of man"));
    assert!(g.ends_with("# Workflows\n"));
}

#[test]
fn reports_are_printed() {
    let t = |path: &str, album: &str| Track {
        path: path.into(),
        artist: "A".into(),
        album: album.into(),
        title: "T".into(),
        dur: None,
    };
    let r = run(2, &[t("/1", "Album"), t("/2", "Album (Deluxe)")]);
    let lines = print_dedup(&plain(1), &r);
    assert_eq!(lines[0], "✓ dedup · 2 tracks scanned");
    assert_eq!(lines[1], "    duplicate-groups 1  ·  subset-editions 0  ·  redundant-files 1");
    assert!(lines.iter().any(|l| l.starts_with("    keep:   ")) && lines.iter().any(|l| l.starts_with("    remove: ")));
    assert_eq!(print_dedup(&plain(0), &r).len(), 1);

    let c = amdl::covers::summarize(&[], &[], true);
    assert_eq!(print_covers(&plain(1), &c)[0], "✓ covers · 0 coverless album(s) [dry-run]");
    assert_eq!(straggler_line(7, "Album", "Artist", 3), "    7. Album — Artist (3 tracks)");

    let rec = amdl::recover::summarize(&[amdl::recover::Ending::Broken("x".into())], false);
    let lines = print_recover(&plain(1), &rec);
    assert_eq!(lines.last().unwrap(), "    x");

    let j = begin(vec!["amdl".into(), "tag".into()], 0);
    let info = run_info("id", &j);
    assert_eq!(listed_run_line(&info, 10), format!("  just now     {:<40}  0 file(s)   [id]", "tag"));
    assert_eq!(run_line(0, &info, 10), format!("  >  1  just now     {:<40}  0 file(s)", "tag"));
    assert_eq!(run_line(11, &info, 10), format!("    12  just now     {:<40}  0 file(s)", "tag"));
    let u = undo("id", &j.argv, &[Undone { path: "p".into(), ending: Ending::Left }], true);
    let lines = print_undo(&plain(1), &u).unwrap();
    assert_eq!(lines[0], "⚠ undo · tag [dry-run]");
    assert_eq!(lines[2], "    skipped: p (changed since — left as-is)");

    let e = amdl::retag::Edit { compilation: true, ..Default::default() };
    assert_eq!(tag_message(&amdl::retag::summarize(2, &e, true, &[])), "tagged 2 of 2 (failed 0) [dry-run]");
    let l = amdl::lyrics::tally_up(&[]);
    assert_eq!(amdl::report::print_lyrics(&plain(1), &l)[0], "✓ lyrics · 0 written");
}
