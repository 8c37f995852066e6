use amdl::covers::DEFAULT_MIN_EDGE_PX;
use amdl::doctor::DURATION_TOLERANCE;
use amdl::identify::DEFAULT_MIN_SCORE;
use amdl::journal::KEEP_RUNS;
use amdl::lyrics::DURATION_TOL;
use amdl::recover::{
    accepts, artist_title, broken_line, find_copy, fresh_files, grouping_from_sibling, itunes_song_url, needs_regroup,
    is_broken, resolve_meta, step, summarize, Candidate, Ending, Step, DURATION_TOL_SECS,
};

/// The sentences of the workflow guide that quote a number.
const DOC: &str = "- `truncated` — decoded Opus duration differs from the source's by > 1.5 s\n\
    (decodes, min edge ≥250px) and square-cropped; covers apply **per normalized\n\
    `--apply` never writes a match below `--min-score` (default 0.9) — a wrong tag is\n\
    the broken track's **title and duration** (±3 s), so a live cut/remix/wrong\n\
    and the newest 25 runs are kept, older ones pruned automatically.\n\
    fallback matches are verified against the file's duration (±3s)\n";

fn assert_documented(label: &str, needle: String) {
    assert!(DOC.contains(&needle), "expected {label} to appear as {needle:?}");
}

#[test]
fn workflows_doc_constants_match_code() {
    assert_documented("doctor truncated tolerance", format!("> {} s", DURATION_TOLERANCE as f64 / 1e6));
    assert_documented("lyrics fuzzy-match duration tolerance", format!("(±{}s)", DURATION_TOL));
    assert_documented("identify default min-score", format!("default {}", DEFAULT_MIN_SCORE as f64 / 1e18));
    assert_documented("recover duration tolerance", format!("±{} s", DURATION_TOL_SECS));
    assert_documented("undo journal retention", format!("{} runs", KEEP_RUNS));
    assert_documented("covers default min edge", format!("≥{}px", DEFAULT_MIN_EDGE_PX));
}

#[test]
fn sibling_grouping_infers_compilation_from_album_artist() {
    assert_eq!(
        grouping_from_sibling(Some("Eurovision [Disc 2]"), Some("Various Artists")),
        Some(("Eurovision [Disc 2]".to_string(), true))
    );
    assert_eq!(
        grouping_from_sibling(Some("Some Album"), Some("Some Artist")),
        Some(("Some Album".to_string(), false))
    );
    assert_eq!(grouping_from_sibling(None, Some("Various Artists")), None);
    assert_eq!(grouping_from_sibling(Some(""), None), None);
}

#[test]
fn a_file_without_tags_is_known_by_its_name_and_folder() {
    let m = resolve_meta("/src/The Album/01 - The Song.m4a", None, None, None);
    assert_eq!((m.artist, m.title.as_str(), m.album.as_deref()), (None, "The Song", Some("The Album")));
    let m = resolve_meta("/src/X/1999.m4a", None, None, None);
    assert_eq!(m.title, "1999");
    let m = resolve_meta("/src/X/1.m4a", Some("A".into()), Some("T".into()), Some("B".into()));
    assert_eq!((m.artist.as_deref(), m.title.as_str(), m.album.as_deref()), (Some("A"), "T", Some("B")));
}

#[test]
fn a_candidate_must_agree_in_title_and_length() {
    assert!(accepts("The Song", Some(180_000), "the song!", Some(183_000)));
    assert!(!accepts("The Song", Some(180_000), "the song", Some(183_001)));
    assert!(!accepts("The Song", Some(180_000), "the song", None));
    assert!(!accepts("The Song", Some(180_000), "the song (live)", Some(180_000)));
    assert!(accepts("The Song", None, "the song", None));
}

#[test]
fn a_copy_is_found_by_album_title_and_length() {
    let cand = |album: &str, title: &str, length: u64| Candidate {
        path: format!("/ref/{title}.opus"),
        album: Some(album.to_string()),
        title: Some(title.to_string()),
        length: Some(length),
    };
    let all = vec![cand("Other", "Song", 180_000), cand("Album (Deluxe)", "Song", 240_000), cand("Album [Disc 1]", "Song", 181_000)];
    let m = resolve_meta("/src/x.m4a", None, Some("Song".into()), Some("Album".into()));
    assert_eq!(find_copy(&all, &m, Some(180_000)), Some(2));
    assert_eq!(find_copy(&all, &m, None), Some(1));
    assert_eq!(find_copy(&all[..1], &m, None), None);
}

#[test]
fn a_song_of_the_store_is_verified() {
    let body = r#"{"results":[
        {"trackName":"Song (Live)","trackTimeMillis":180000,"trackViewUrl":"http://live"},
        {"trackName":"Song","trackTimeMillis":300000,"trackViewUrl":"http://long"},
        {"trackName":"Song","trackTimeMillis":181500,"trackViewUrl":"http://right"}]}"#;
    assert_eq!(itunes_song_url(body, "Song", Some(180_000)).as_deref(), Some("http://right"));
    assert_eq!(itunes_song_url(body, "Song", None).as_deref(), Some("http://long"));
    assert_eq!(itunes_song_url(body, "Other", None), None);
    assert_eq!(itunes_song_url("no json", "Song", None), None);
}

#[test]
fn copies_come_before_downloads() {
    assert_eq!(step(true, true, false, true), Step::Copy);
    assert_eq!(step(false, true, false, true), Step::Fetch);
    assert_eq!(step(false, true, true, true), Step::Leave);
    assert_eq!(step(false, true, false, false), Step::Leave);
}

#[test]
fn a_run_is_summed_up() {
    let m = resolve_meta("/src/A/02 B.m4a", None, None, None);
    let line = broken_line(&m, "A/02 B.m4a");
    assert_eq!(line, "? — B (A/02 B.m4a)");
    let r = summarize(
        &[Ending::Broken("b".into()), Ending::Copied(1), Ending::Fetched(2), Ending::Broken("a".into())],
        false,
    );
    assert_eq!((r.broken, r.recovered_from_sibling, r.reacquired, r.regrouped), (4, 1, 1, 3));
    assert_eq!(r.still_broken, vec!["a", "b"]);
}

#[test]
fn small_decisions() {
    assert!(needs_regroup(None, "A") && needs_regroup(Some("B"), "A") && !needs_regroup(Some("A"), "A"));
    assert_eq!(artist_title("A", "T"), "A T");
    let v = |x: &[&str]| x.iter().map(|s| s.to_string()).collect::<Vec<_>>();
    assert_eq!(fresh_files(&v(&["a"]), &v(&["a", "b"])), vec!["b"]);
}

#[test]
fn a_track_is_broken_where_no_opus_can_be_read() {
    assert!(is_broken(false, false));
    assert!(is_broken(true, false));
    assert!(!is_broken(true, true));
}
