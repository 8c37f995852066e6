use amdl::covers::{
    can_ask_online, coverless_albums, discogs_candidates, downloaded, extract_og_image, fit, found_by,
    itunes_candidates, musicbrainz_candidates, musicbrainz_query, needs_page, next_pass, next_source, norm_album, pause_ms,
    reference_for, summarize, validate_and_square, Fit, Found, OnlineSource, Pass, Seen,
};
use amdl::tags::{Picture, FRONT_COVER};
use std::io::Cursor;

#[test]
fn albums_group_across_discs_and_case() {
    let a = norm_album("The Very Best of Pop 1989-90");
    assert_eq!(a, norm_album("The Very Best of Pop 1989-90 [Disc 2]"));
    assert_eq!(a, norm_album("the  very best of pop 1989-90 (Deluxe Edition)"));
    assert_ne!(a, norm_album("The Very Best of Pop 1991-92"));
}

fn jpeg_of(w: u32, h: u32) -> Picture {
    let img = image::RgbImage::from_pixel(w, h, image::Rgb([120, 30, 30]));
    let mut buf = Vec::new();
    image::DynamicImage::ImageRgb8(img).write_to(&mut Cursor::new(&mut buf), image::ImageFormat::Jpeg).unwrap();
    Picture { kind: FRONT_COVER, mime: Some("image/jpeg".to_string()), description: None, data: buf }
}

#[test]
fn cover_too_small_is_rejected() {
    assert!(validate_and_square(&jpeg_of(100, 100), 250).is_none());
}

#[test]
fn wide_cover_is_center_cropped_square() {
    let out = validate_and_square(&jpeg_of(600, 400), 250).expect("valid");
    let img = image::load_from_memory(&out.data).unwrap();
    assert_eq!(img.width(), img.height(), "cropped to square");
    assert_eq!(img.width(), 400, "square side = min edge");
}

#[test]
fn square_cover_passes_through() {
    assert!(validate_and_square(&jpeg_of(500, 500), 250).is_some());
}

#[test]
fn a_square_cover_keeps_its_bytes_and_junk_is_no_cover() {
    let p = jpeg_of(500, 500);
    assert_eq!(validate_and_square(&p, 250).unwrap().data, p.data);
    let junk = Picture { kind: FRONT_COVER, mime: None, description: None, data: vec![1, 2, 3] };
    assert!(validate_and_square(&junk, 1).is_none());
}

#[test]
fn a_crop_is_centred() {
    assert_eq!(fit(Some((600, 400)), 250), Fit::Crop { x: 100, y: 0, side: 400 });
    assert_eq!(fit(Some((400, 601)), 250), Fit::Crop { x: 0, y: 100, side: 400 });
    assert_eq!(fit(Some((250, 250)), 250), Fit::Keep);
    assert_eq!(fit(Some((249, 900)), 250), Fit::Reject);
    assert_eq!(fit(None, 250), Fit::Reject);
}

#[test]
fn the_kind_of_a_download_is_read_from_its_bytes() {
    assert_eq!(downloaded(vec![0x89, b'P', b'N', b'G', 0]).mime.as_deref(), Some("image/png"));
    assert_eq!(downloaded(vec![0xff, 0xd8, 0xff]).mime.as_deref(), Some("image/jpeg"));
}

fn seen(path: &str, has_cover: bool, album: &str, artist: &str) -> Seen {
    Seen {
        path: path.to_string(),
        has_cover,
        album: Some(album.to_string()),
        album_artist: None,
        artist: Some(artist.to_string()),
    }
}

#[test]
fn coverless_albums_come_with_the_most_tracks_first() {
    let files = vec![
        seen("/a/1.opus", false, "One", "X"),
        seen("/b/1.opus", false, "Two", "Y"),
        seen("/b/2.opus", false, "Two [Disc 2]", "Y"),
        seen("/c/1.opus", true, "Three", "Z"),
    ];
    let albums = coverless_albums(&files);
    assert_eq!(albums.len(), 2);
    assert_eq!(albums[0].display, "Two");
    assert_eq!(albums[0].tracks, vec!["/b/1.opus", "/b/2.opus"]);
    assert_eq!(albums[1].display, "One");
    assert_eq!(reference_for(&files, "three (deluxe)"), Some(3));
    assert_eq!(reference_for(&files, "One"), None);
}

#[test]
fn every_album_is_filled_or_left_over() {
    let files = vec![seen("/a/1.opus", false, "One", "X"), seen("/b/1.opus", false, "Two", "Y")];
    let albums = coverless_albums(&files);
    let found = vec![Found::From(Pass::Reference, 1), Found::Nothing];
    let r = summarize(&albums, &found, false);
    assert_eq!((r.coverless_albums, r.albums_filled, r.filled_from_reference), (2, 1, 1));
    assert_eq!(r.stragglers.len(), 1);
    assert_eq!(r.stragglers[0].n, 1);
    assert_eq!(r.albums_filled + r.stragglers.len(), r.coverless_albums);
}

#[test]
fn what_is_left_is_listed_by_weight() {
    let files = vec![
        seen("/a/1.opus", false, "Beta", "X"),
        seen("/b/1.opus", false, "Alpha", "Y"),
        seen("/c/1.opus", false, "Gamma", "Z"),
        seen("/c/2.opus", false, "Gamma", "Z"),
        seen("/d/1.opus", false, "Delta", "W"),
    ];
    let albums = coverless_albums(&files);
    let found: Vec<Found> = albums
        .iter()
        .map(|a| if a.display == "Beta" { Found::From(Pass::Source, 1) } else { Found::Nothing })
        .collect();
    let r = summarize(&albums, &found, false);
    let got: Vec<_> = r.stragglers.iter().map(|s| (s.n, s.album.as_str(), s.tracks)).collect();
    assert_eq!(got, vec![(1, "Gamma", 2), (2, "Alpha", 1), (3, "Delta", 1)]);
}

#[test]
fn passes_run_from_the_cheapest() {
    let all = |tried, found| next_pass(tried, found, true, true, true);
    assert_eq!(all(None, false), Some(Pass::Source));
    assert_eq!(all(Some(Pass::Source), false), Some(Pass::Reference));
    assert_eq!(all(Some(Pass::Reference), false), Some(Pass::Online));
    assert_eq!(all(Some(Pass::Online), false), None);
    assert_eq!(next_pass(None, false, false, false, true), Some(Pass::Online));
    assert_eq!(next_pass(Some(Pass::Source), false, true, false, true), Some(Pass::Online));
    assert_eq!(next_pass(None, false, false, false, false), None);
}

#[test]
fn the_first_cover_ends_the_search() {
    for tried in [Pass::Source, Pass::Reference, Pass::Online] {
        assert_eq!(next_pass(Some(tried), true, true, true, true), None);
    }
}

#[test]
fn online_needs_an_album_and_an_artist_that_are_known() {
    assert!(can_ask_online("Album", "Artist"));
    assert!(!can_ask_online("(unknown album)", "Artist"));
    assert!(!can_ask_online("Album", "(unknown)"));
}

#[test]
fn candidates_must_match_album_and_artist() {
    assert!(amdl::covers::matches("Abbey Road", "abbey road (Remastered)"));
    assert!(!amdl::covers::matches("Abbey Road", "Let It Be"));
    let body = r#"{"results":[
        {"collectionName":"Other","artistName":"Artist","artworkUrl100":"http://x/100x100bb.jpg"},
        {"collectionName":"Album","artistName":"Artist","artworkUrl100":"http://y/100x100bb.jpg"}]}"#;
    let got = itunes_candidates(body, "Album", "Artist");
    assert_eq!(got.len(), 1);
    assert!(got[0].starts_with("http://y/"));
    assert!(itunes_candidates("nope", "Album", "Artist").is_empty());
    assert!(musicbrainz_candidates("nope", "Album", "Artist").is_empty());
    assert!(discogs_candidates("nope", "Album", "Artist").is_empty());
    assert!(musicbrainz_query("Album", "Artist").contains("Album"));
}

#[test]
fn a_discogs_title_must_name_artist_and_album() {
    let body = |title: &str| format!(r#"{{"results":[{{"title":"{title}","cover_image":"http://d/1.jpg"}}]}}"#);
    let found = |title: &str, album: &str, artist: &str| discogs_candidates(&body(title), album, artist);
    assert_eq!(found("Queen - Queen", "Queen", "Queen"), vec!["http://d/1.jpg"]);
    assert!(found("Various - Queen", "Queen", "Queen").is_empty());
    assert!(found("Queen (2) - A Night At The Opera (Deluxe)", "Queen", "Queen").is_empty());
    assert_eq!(found("Queen (2) - A Night At The Opera (Deluxe)", "A Night at the Opera", "Queen").len(), 1);
    assert!(found("Artist Album", "Album", "Artist").is_empty());
    assert_eq!(found("Artist - Album - Live", "Album Live", "Artist").len(), 1);
}

#[test]
fn services_are_asked_in_order_until_one_has_a_cover() {
    let (mb, it, dc) = (OnlineSource::MusicBrainz, OnlineSource::Itunes, OnlineSource::Discogs);
    assert_eq!(next_source(None, false, false), Some(mb));
    assert_eq!(next_source(Some(mb), false, true), Some(it));
    assert_eq!(next_source(Some(mb), true, true), None);
    assert_eq!(next_source(Some(it), false, true), Some(dc));
    assert_eq!(next_source(Some(it), false, false), None);
    assert_eq!(next_source(Some(dc), false, true), None);
    assert_eq!((pause_ms(mb), pause_ms(it), pause_ms(dc)), (1100, 200, 300));
    assert_eq!(found_by(Pass::Online, 7, true, 0), Found::From(Pass::Online, 7));
    assert_eq!(found_by(Pass::Online, 7, false, 5), Found::From(Pass::Online, 5));
}

#[test]
fn the_image_of_a_page_is_found() {
    assert!(needs_page("https://open.spotify.com/album/1"));
    assert!(!needs_page("https://i.scdn.co/image/1.jpg"));
    let html = r#"<meta property="og:image" content="https://i.scdn.co/image/abc"/>"#;
    assert_eq!(extract_og_image(html).as_deref(), Some("https://i.scdn.co/image/abc"));
    assert_eq!(extract_og_image("<html></html>"), None);
}
