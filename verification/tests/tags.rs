use amdl::journal::{begin, edit, restore, revert, snapshot, Step};
use amdl::lyrics::mark_instrumental;
use amdl::retag::{apply, summarize, writes, Edit};
use amdl::scan::{audio, has_ext, track_exts, with_exts};
use amdl::tags::{
    duration_secs, finalize_opus, has_cover, is_junk_key, read_basic, read_cover, read_meta, set_album_grouping,
    set_cover, set_instrumental_mark, set_lyrics, strip_junk, write_fields, Custom, Picture, Properties, Tag,
    FRONT_COVER, INSTRUMENTAL_KEY,
};

#[test]
fn strips_itunes_junk_keeps_real_tags() {
    for k in ["iTunSMPB", "iTunNORM", "----:com.apple.iTunes:CT", "major_brand", "encoder"] {
        assert!(is_junk_key(k), "{k} should be junk");
    }
    for k in ["ARTIST", "ALBUM", "TITLE", "MUSICBRAINZ_ALBUMID", "ALBUMARTIST"] {
        assert!(!is_junk_key(k), "{k} should be kept");
    }
}

#[test]
fn noop_guard() {
    assert!(Edit::default().is_noop());
    assert!(!Edit { compilation: true, ..Default::default() }.is_noop());
    assert!(!Edit { album: Some("x".into()), ..Default::default() }.is_noop());
    assert!(!Edit { artist: Some("y".into()), ..Default::default() }.is_noop());
}

#[test]
fn has_ext_is_case_insensitive() {
    assert!(has_ext("a/b.OPUS", &["opus"]));
    assert!(has_ext("a/b.mp3", &["opus", "mp3"]));
    assert!(!has_ext("a/b.txt", &["opus", "mp3"]));
    assert!(!has_ext("a/b", &["opus"]));
}

#[test]
fn listings_are_filtered_and_sorted() {
    let found: Vec<String> = ["z.opus", "a/b.MP3", "a/.hidden", "a/c.txt"].iter().map(|s| s.to_string()).collect();
    assert_eq!(with_exts(&found, &["opus", "mp3"]), vec!["a/b.MP3", "z.opus"]);
    assert_eq!(audio(&found), vec!["a/b.MP3", "z.opus"]);
}

#[test]
fn tracks_are_fewer_than_all_audio() {
    let found: Vec<String> = ["a.flac", "b.m4a", "c.opus", "d.wav", "e.mp3"].iter().map(|s| s.to_string()).collect();
    assert_eq!(with_exts(&found, &track_exts()), vec!["b.m4a", "c.opus", "e.mp3"]);
    assert_eq!(audio(&found).len(), 5);
}

fn tagged() -> Tag {
    let mut t = Tag::default();
    write_fields(&mut t, Some("Title"), Some("Artist"), Some("Test Album"));
    t
}

fn cover(byte: u8) -> Picture {
    Picture { kind: FRONT_COVER, mime: Some("image/jpeg".to_string()), description: None, data: vec![byte; 4] }
}

#[test]
fn tag_edit_then_undo_restores_every_field() {
    let mut t = tagged();
    set_cover(&mut t, &cover(1));
    assert_eq!(read_basic(Some(&t)).album.as_deref(), Some("Test Album"));

    let before = snapshot(&t);
    let mut j = begin(vec!["amdl".to_string(), "tag".to_string()], 1);
    apply(&mut t, &Edit { album: Some("CHANGED ALBUM".to_string()), compilation: true, ..Default::default() });
    set_cover(&mut t, &cover(2));
    set_lyrics(&mut t, "words");
    edit(&mut j, "/lib/a.opus", Some(before), b"after the edit");
    assert_eq!(read_basic(Some(&t)).album.as_deref(), Some("CHANGED ALBUM"));

    let snap = match revert(&j.entries[0], Some(b"after the edit")) {
        Step::RestoreTags(s) => s,
        other => panic!("{other:?}"),
    };
    restore(&mut t, snap, Some(vec![1; 4]));
    assert_eq!(read_basic(Some(&t)).album.as_deref(), Some("Test Album"), "undo should restore the album");
    assert_eq!(t.album_artist, None);
    assert_eq!(t.compilation, None);
    assert_eq!(t.lyrics, None);
    assert_eq!(t.pictures[read_cover(&t).unwrap()].data, vec![1; 4]);
}

#[test]
fn mark_instrumental_then_undo() {
    let mut t = tagged();
    set_lyrics(&mut t, "wrong words");
    assert!(!read_basic(Some(&t)).instrumental_marked);
    let before = snapshot(&t);

    mark_instrumental(&mut t, false);
    assert!(read_basic(Some(&t)).instrumental_marked, "should be marked instrumental");
    assert_eq!(t.lyrics, None);

    restore(&mut t, &before, None);
    assert!(!read_basic(Some(&t)).instrumental_marked, "undo should clear the mark");
    assert_eq!(t.lyrics.as_deref(), Some("wrong words"));
}

#[test]
fn a_mark_can_be_taken_off_again() {
    let mut t = tagged();
    set_instrumental_mark(&mut t);
    set_lyrics(&mut t, "kept");
    mark_instrumental(&mut t, true);
    assert!(!read_basic(Some(&t)).instrumental_marked);
    assert_eq!(t.lyrics.as_deref(), Some("kept"));
}

#[test]
fn an_edit_is_idempotent() {
    let e = Edit { compilation: true, album: Some("A".to_string()), ..Default::default() };
    let mut t = tagged();
    apply(&mut t, &e);
    assert_eq!(t.album_artist.as_deref(), Some("Various Artists"));
    assert_eq!(t.compilation.as_deref(), Some("1"));
    let once = format!("{t:?}");
    apply(&mut t, &e);
    assert_eq!(format!("{t:?}"), once);
}

#[test]
fn an_explicit_album_artist_beats_the_one_of_a_compilation() {
    let e = Edit { compilation: true, album_artist: Some("DJ".to_string()), ..Default::default() };
    let mut t = tagged();
    apply(&mut t, &e);
    assert_eq!(t.album_artist.as_deref(), Some("DJ"));
}

#[test]
fn edits_are_counted() {
    let e = Edit { artist: Some("A".to_string()), ..Default::default() };
    let r = summarize(3, &e, false, &[true, false, true]);
    assert_eq!((r.total, r.changed, r.failed), (3, 2, 1));
    let r = summarize(3, &e, true, &[]);
    assert_eq!((r.changed, r.failed), (3, 0));
    let r = summarize(3, &Edit::default(), false, &[]);
    assert_eq!((r.changed, r.failed), (0, 0));
    assert!(writes(&e, false) && !writes(&e, true) && !writes(&Edit::default(), false));
}

#[test]
fn junk_goes_and_the_mark_stays() {
    let mut t = tagged();
    t.custom.push(Custom { key: "iTunNORM".to_string(), value: "0".to_string() });
    set_instrumental_mark(&mut t);
    strip_junk(&mut t);
    assert_eq!(t.custom.len(), 1);
    assert_eq!(t.custom[0].key, INSTRUMENTAL_KEY);
}

#[test]
fn a_converted_file_gets_its_cover() {
    let mut t = tagged();
    assert!(!has_cover(&[]));
    assert!(finalize_opus(&mut t, Some(&cover(7))));
    assert_eq!(t.pictures.len(), 1);
    assert!(has_cover(&[t]));
    let mut bare = tagged();
    assert!(!finalize_opus(&mut bare, None));
}

#[test]
fn a_picture_keeps_its_kind_and_description() {
    let mut t = tagged();
    let back = Picture {
        kind: 4,
        mime: Some("image/png".to_string()),
        description: Some("back".to_string()),
        data: vec![1, 2],
    };
    set_cover(&mut t, &back);
    assert_eq!(t.pictures.len(), 1);
    assert_eq!((t.pictures[0].kind, t.pictures[0].description.as_deref()), (4, Some("back")));
    // A front cover is preferred to the picture that stands first.
    t.pictures.push(cover(7));
    assert_eq!(read_cover(&t), Some(1));
}

#[test]
fn a_track_is_put_into_its_album() {
    let mut t = tagged();
    set_album_grouping(&mut t, "Hits", true);
    assert_eq!(t.album.as_deref(), Some("Hits"));
    assert_eq!(t.album_artist.as_deref(), Some("Various Artists"));
}

#[test]
fn properties_are_read() {
    let p = Properties {
        millis: 61_999,
        audio_bitrate: None,
        overall_bitrate: Some(130),
        sample_rate: Some(48_000),
        channels: Some(2),
    };
    let m = read_meta(p, None);
    assert_eq!((m.duration_secs, m.bitrate_kbps, m.channels), (61, Some(130), Some(2)));
    assert_eq!(duration_secs(Some(999)), Some(0));
    assert_eq!(duration_secs(Some(1000)), Some(1));
    assert_eq!(duration_secs(None), None);
}
