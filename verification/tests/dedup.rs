use amdl::dedup::{exact_duplicates, is_strict_subset, run, subset_editions, track, Track};

fn t(path: &str, artist: &str, album: &str, title: &str) -> Track {
    Track { path: path.into(), artist: artist.into(), album: album.into(), title: title.into(), dur: Some(180) }
}

fn set(items: &[&str]) -> Vec<String> {
    items.iter().map(|s| s.to_string()).collect()
}

#[test]
fn strict_subset_rules() {
    assert!(is_strict_subset(&set(&["a"]), &set(&["a", "b"])));
    assert!(!is_strict_subset(&set(&["a", "b"]), &set(&["a", "b"])));
    assert!(!is_strict_subset(&set(&[]), &set(&["a"])));
    assert!(!is_strict_subset(&set(&["a"]), &set(&["b"])));
}

#[test]
fn cross_release_copy_is_not_a_duplicate() {
    let tracks = vec![
        t("/lib/Artist/Studio Album/01 Hit.opus", "Artist", "Studio Album", "Hit"),
        t("/lib/Compilations/Now 45/12 Hit.opus", "Artist", "Now 45", "Hit"),
    ];
    assert!(exact_duplicates(&tracks).is_empty());
}

#[test]
fn same_song_across_editions_is_a_duplicate() {
    let tracks = vec![
        t("/lib/Artist/Album/01 Hit.opus", "Artist", "Album", "Hit"),
        t("/lib/Artist/Album (Deluxe)/01 Hit.opus", "Artist", "Album (Deluxe)", "Hit"),
    ];
    let dups = exact_duplicates(&tracks);
    assert_eq!(dups.len(), 1);
    assert_eq!(dups[0].remove.len(), 1);
}

#[test]
fn orphan_edition_is_a_strict_subset() {
    let tracks = vec![
        t("/lib/Artist/Album/01 One.opus", "Artist", "Album", "One"),
        t("/lib/Artist/Album (Deluxe)/01 One.opus", "Artist", "Album (Deluxe)", "One"),
        t("/lib/Artist/Album (Deluxe)/02 Two.opus", "Artist", "Album (Deluxe)", "Two"),
    ];
    let subs = subset_editions(&tracks);
    assert_eq!(subs.len(), 1);
    assert_eq!(subs[0].album, "Album");
    assert_eq!(subs[0].covered_by, "Album (Deluxe)");
    assert_eq!(subs[0].tracks, 1);
}

#[test]
fn multidisc_editions_are_not_subsets() {
    let tracks = vec![
        t("/lib/VA/Comp [Disc 1]/01 A.opus", "VA", "Comp [Disc 1]", "A"),
        t("/lib/VA/Comp [Disc 2]/01 B.opus", "VA", "Comp [Disc 2]", "B"),
    ];
    assert!(subset_editions(&tracks).is_empty());
}

#[test]
fn the_copy_in_the_fuller_edition_is_kept() {
    let tracks = vec![
        t("/lib/Artist/Album/01 One.opus", "Artist", "Album", "One"),
        t("/lib/Artist/Album (Deluxe)/01 One.opus", "Artist", "Album (Deluxe)", "One"),
        t("/lib/Artist/Album (Deluxe)/02 Two.opus", "Artist", "Album (Deluxe)", "Two"),
    ];
    let r = run(3, &tracks);
    assert!(!r.is_clean());
    assert_eq!(r.exact_duplicates[0].keep, "/lib/Artist/Album (Deluxe)/01 One.opus");
    assert!(!r.exact_duplicates[0].durations_diverge);
    assert!(r.removals().iter().all(|p| p == "/lib/Artist/Album/01 One.opus"));
}

#[test]
fn copies_of_different_lengths_are_flagged() {
    let mut a = t("/lib/A/01 Hit.opus", "Artist", "Album", "Hit");
    let b = t("/lib/B/01 Hit.opus", "Artist", "Album (Live)", "Hit");
    a.dur = Some(191);
    assert!(exact_duplicates(&[a, b])[0].durations_diverge);
}

#[test]
fn a_track_without_a_tag_does_not_count() {
    assert!(track("/x.opus", Some("A".into()), None, Some("T".into()), None).is_none());
    assert!(track("/x.opus", Some("".into()), Some("B".into()), Some("T".into()), None).is_none());
    assert!(track("/x.opus", Some("A".into()), Some("B".into()), Some("T".into()), None).is_some());
}
