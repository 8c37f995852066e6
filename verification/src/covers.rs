//! Cover art: finding covers for albums that have none.
//!
//! The sources form a funnel from the safest to the riskiest: the source library, other
//! libraries that hold the same album, online services that agree on artist and album,
//! and at last an address that the operator pastes. A blank cover beats a wrong one.
use vstd::prelude::*;
use crate::sort::{
    arrange, arranged, group, group_ints, groups_of, key_ints, keys_ints, law_group_members, law_groups, law_sorted,
    lemma_less_asymmetric, lemma_order_exists, lemma_order_len, lemma_text_key_front, less, less_from, order_of,
    place_ints, precedes, push_text_key, sort_order, text_key, together, total,
};
use crate::json::{Json, JsonV, MemberV, json_value, list_field, parse, text_field};
use crate::tags::{copy_picture, Picture, PictureV, FRONT_COVER};
use crate::text::{
    begins, cat3, cat5, chars_of, contains, contains_text, find_chars, find_from, first_of, first_of_chars,
    is_alnum, lemma_find_from, lemma_first_of, lemma_flatten_push, lower_char, lowercase_char,
    matches_at, replace_text, replaced_from, squashed, starts_with, text_of,
};

verus! {

// ---- album titles --------------------------------------------------------------------

pub open spec fn opens(c: char) -> bool {
    c == '[' || c == '('
}

pub open spec fn closes(c: char) -> bool {
    c == ']' || c == ')'
}

/// How many brackets are open after the first `n` characters. A closing bracket
/// with none open closes nothing.
pub open spec fn bracket_depth(s: Seq<char>, n: int) -> nat
    decreases n,
{
    if n <= 0 {
        0
    } else {
        let d = bracket_depth(s, n - 1);
        if opens(s[n - 1]) {
            d + 1
        } else if closes(s[n - 1]) && d > 0 {
            (d - 1) as nat
        } else {
            d
        }
    }
}

/// What is compared of the first `n` characters of an album title: the alphanumeric
/// ones outside all brackets, in small letters.
pub open spec fn album_key_upto(s: Seq<char>, n: int) -> Seq<char>
    decreases n,
{
    if n <= 0 {
        seq![]
    } else {
        let c = s[n - 1];
        let before = album_key_upto(s, n - 1);
        if !opens(c) && !closes(c) && bracket_depth(s, n - 1) == 0 && is_alnum(c) {
            before + lower_char(c)
        } else {
            before
        }
    }
}

/// What is compared of an album title, so that discs and editions fall together.
pub open spec fn album_key(s: Seq<char>) -> Seq<char> {
    album_key_upto(s, s.len() as int)
}

proof fn lemma_depth_bound(s: Seq<char>, n: int)
    ensures
        bracket_depth(s, n) <= (if n > 0 {
            n
        } else {
            0
        }),
    decreases n,
{
    if n > 0 {
        lemma_depth_bound(s, n - 1);
    }
}

/// What is compared of an album title, so that discs and editions fall together.
pub fn norm_album(s: &str) -> (r: String)
    ensures
        r@ == album_key(s@),
{
    let c = chars_of(s);
    let mut out = String::new();
    let mut depth: usize = 0;
    let mut i: usize = 0;
    while i < c.len()
        invariant
            i <= c@.len(),
            c@ == s@,
            depth == bracket_depth(s@, i as int),
            out@ == album_key_upto(s@, i as int),
        decreases c@.len() - i,
    {
        proof {
            lemma_depth_bound(s@, i as int);
        }
        let x = c[i];
        if x == '[' || x == '(' {
            depth += 1;
        } else if x == ']' || x == ')' {
            if depth > 0 {
                depth -= 1;
            }
        } else if depth == 0 && x.is_alphanumeric() {
            out.append(lowercase_char(x).as_str());
        }
        i += 1;
    }
    out
}

/// Two titles name the same thing, and it has a name.
pub open spec fn titles_match(query: Seq<char>, candidate: Seq<char>) -> bool {
    album_key(query).len() > 0 && album_key(query) == album_key(candidate)
}

/// What stands behind a text changes nothing of what was read of the text.
proof fn lemma_key_front(s: Seq<char>, t: Seq<char>, n: int)
    requires
        n <= s.len(),
    ensures
        bracket_depth(s + t, n) == bracket_depth(s, n),
        album_key_upto(s + t, n) == album_key_upto(s, n),
    decreases n,
{
    if n > 0 {
        lemma_key_front(s, t, n - 1);
        assert((s + t)[n - 1] == s[n - 1]);
    }
}

/// Inside one bracket nothing is compared.
proof fn lemma_key_inside(s: Seq<char>, open: char, t: Seq<char>, n: int)
    requires
        opens(open),
        bracket_depth(s, s.len() as int) == 0,
        0 <= n <= t.len(),
        forall|i: int| 0 <= i < t.len() ==> !opens(#[trigger] t[i]) && !closes(t[i]),
    ensures
        bracket_depth(s.push(open) + t, s.len() + 1 + n) == 1,
        album_key_upto(s.push(open) + t, s.len() + 1 + n) == album_key(s),
    decreases n,
{
    let u = s.push(open) + t;
    if n > 0 {
        lemma_key_inside(s, open, t, n - 1);
        assert(u[s.len() + n] == t[n - 1]);
    } else {
        assert(u =~= s + (seq![open] + t));
        lemma_key_front(s, seq![open] + t, s.len() as int);
        assert(u[s.len() as int] == open);
    }
}

/// An edition or a disc in brackets behind an album title changes nothing of what is
/// compared of it.
pub proof fn law_editions_agree(s: Seq<char>, open: char, t: Seq<char>, close: char)
    requires
        opens(open),
        closes(close),
        bracket_depth(s, s.len() as int) == 0,
        forall|i: int| 0 <= i < t.len() ==> !opens(#[trigger] t[i]) && !closes(t[i]),
    ensures
        album_key((s.push(open) + t).push(close)) == album_key(s),
{
    let u = s.push(open) + t;
    lemma_key_inside(s, open, t, t.len() as int);
    assert(u.push(close) =~= u + seq![close]);
    lemma_key_front(u, seq![close], u.len() as int);
}

/// A text without brackets.
pub open spec fn bare(s: Seq<char>) -> bool {
    forall|i: int| 0 <= i < s.len() ==> {
        let c = #[trigger] s[i];
        c != '(' && c != '[' && c != ')' && c != ']'
    }
}

/// What is compared of a title without brackets is all that is alphanumeric in it. A bracketed
/// part can be taken out wherever it stands, also out of another; a bracket that is never
/// closed hides all that follows it, and one that closes nothing hides nothing.
pub proof fn law_album_key(s: Seq<char>, open: char, t: Seq<char>, close: char, rest: Seq<char>)
    requires
        open == '(' || open == '[',
        close == ')' || close == ']',
        bare(t),
    ensures
        album_key(t) == squashed(t),
        album_key(s + seq![open] + t + seq![close] + rest) == album_key(s + rest),
        album_key(t + seq![open] + s) == squashed(t) || exists|i: int|
            0 <= i < s.len() && (#[trigger] s[i] == ')' || s[i] == ']'),
        album_key(t + seq![close] + rest) == squashed(t) + album_key(rest),
{
    lemma_bare(t, t.len() as int);
    assert(t.take(t.len() as int) =~= t);
    let head = s + seq![open] + t + seq![close];
    lemma_group_gone(s, open, t, close);
    lemma_key_behind(head, s, rest, rest.len() as int);
    assert(album_key(head + rest) == album_key(s + rest));
    let u = t + seq![open];
    assert(u.drop_last() =~= t);
    lemma_key_front(t, seq![open], t.len() as int);
    assert(bracket_depth(u, u.len() as int) == 1);
    assert(album_key(u) == album_key(t));
    if !(exists|i: int| 0 <= i < s.len() && (#[trigger] s[i] == ')' || s[i] == ']')) {
        lemma_never_closed(u, s, s.len() as int);
    }
    let w = t + seq![close];
    lemma_key_front(t, seq![close], t.len() as int);
    assert(w[t.len() as int] == close);
    lemma_depth_zero(w, rest, rest.len() as int);
}

proof fn lemma_bare(t: Seq<char>, n: int)
    requires
        bare(t),
        0 <= n <= t.len(),
    ensures
        bracket_depth(t, n) == 0,
        album_key_upto(t, n) == squashed(t.take(n)),
    decreases n,
{
    if n > 0 {
        lemma_bare(t, n - 1);
        assert(t.take(n).drop_last() =~= t.take(n - 1));
        assert(t.take(n).last() == t[n - 1]);
    }
    if n == t.len() {
        assert(t.take(n) =~= t);
    }
}

/// Behind a bracketed part it is as it was before.
proof fn lemma_group_gone(s: Seq<char>, open: char, t: Seq<char>, close: char)
    requires
        opens(open),
        closes(close),
        bare(t),
    ensures
        ({
            let head = s + seq![open] + t + seq![close];
            &&& bracket_depth(head, head.len() as int) == bracket_depth(s, s.len() as int)
            &&& album_key(head) == album_key(s)
        }),
{
    let a = s + seq![open];
    lemma_key_front(s, seq![open], s.len() as int);
    assert(a[s.len() as int] == open);
    lemma_inside(a, t, t.len() as int);
    let b = a + t;
    lemma_key_front(b, seq![close], b.len() as int);
    assert((b + seq![close])[b.len() as int] == close);
}

proof fn lemma_inside(a: Seq<char>, t: Seq<char>, n: int)
    requires
        bracket_depth(a, a.len() as int) > 0,
        bare(t),
        0 <= n <= t.len(),
    ensures
        bracket_depth(a + t, a.len() + n) == bracket_depth(a, a.len() as int),
        album_key_upto(a + t, a.len() + n) == album_key(a),
    decreases n,
{
    if n > 0 {
        lemma_inside(a, t, n - 1);
        assert((a + t)[a.len() + n - 1] == t[n - 1]);
    } else {
        lemma_key_front(a, t, a.len() as int);
    }
}

proof fn lemma_key_behind(a: Seq<char>, b: Seq<char>, rest: Seq<char>, n: int)
    requires
        bracket_depth(a, a.len() as int) == bracket_depth(b, b.len() as int),
        album_key(a) == album_key(b),
        0 <= n <= rest.len(),
    ensures
        bracket_depth(a + rest, a.len() + n) == bracket_depth(b + rest, b.len() + n),
        album_key_upto(a + rest, a.len() + n) == album_key_upto(b + rest, b.len() + n),
    decreases n,
{
    if n > 0 {
        lemma_key_behind(a, b, rest, n - 1);
        assert((a + rest)[a.len() + n - 1] == rest[n - 1]);
        assert((b + rest)[b.len() + n - 1] == rest[n - 1]);
    } else {
        lemma_key_front(a, rest, a.len() as int);
        lemma_key_front(b, rest, b.len() as int);
    }
}

proof fn lemma_never_closed(a: Seq<char>, s: Seq<char>, n: int)
    requires
        bracket_depth(a, a.len() as int) > 0,
        forall|i: int| 0 <= i < s.len() ==> !closes(#[trigger] s[i]),
        0 <= n <= s.len(),
    ensures
        bracket_depth(a + s, a.len() + n) > 0,
        album_key_upto(a + s, a.len() + n) == album_key(a),
    decreases n,
{
    if n > 0 {
        lemma_never_closed(a, s, n - 1);
        assert((a + s)[a.len() + n - 1] == s[n - 1]);
    } else {
        lemma_key_front(a, s, a.len() as int);
    }
}

proof fn lemma_depth_zero(a: Seq<char>, rest: Seq<char>, n: int)
    requires
        bracket_depth(a, a.len() as int) == 0,
        0 <= n <= rest.len(),
    ensures
        bracket_depth(a + rest, a.len() + n) == bracket_depth(rest, n),
        album_key_upto(a + rest, a.len() + n) == album_key(a) + album_key_upto(rest, n),
    decreases n,
{
    if n > 0 {
        lemma_depth_zero(a, rest, n - 1);
        assert((a + rest)[a.len() + n - 1] == rest[n - 1]);
        assert(album_key_upto(a + rest, a.len() + n) =~= album_key(a) + album_key_upto(rest, n));
    } else {
        lemma_key_front(a, rest, a.len() as int);
        assert(album_key(a) + album_key_upto(rest, 0) =~= album_key(a));
    }
}

/// Whether two titles name the same thing.
pub fn matches(query: &str, candidate: &str) -> (r: bool)
    ensures
        r == titles_match(query@, candidate@),
{
    let q = norm_album(query);
    !q.as_str().is_empty() && q == norm_album(candidate)
}

// ---- pictures ----------------------------------------------------------------------------

/// The least edge of a cover in pixels, where none is chosen.
pub const DEFAULT_MIN_EDGE_PX: u32 = 250;

/// The width and height of the image that `image::load_from_memory` reads from bytes,
/// `None` where it reads none.
pub uninterp spec fn image_size(data: Seq<u8>) -> Option<(u32, u32)>;

/// `image::load_from_memory`, of which only the width and the height are kept. They
/// depend on the bytes alone.
#[verifier::external_body]
fn decode_size(data: &[u8]) -> (r: Option<(u32, u32)>)
    ensures
        r == image_size(data@),
{
    image::load_from_memory(data).ok().map(|img| (img.width(), img.height()))
}

/// The JPEG file that `image` writes of a square cut out of the image in these bytes.
pub uninterp spec fn jpeg_crop(data: Seq<u8>, x: u32, y: u32, side: u32) -> Option<Seq<u8>>;

/// `image::load_from_memory`, `DynamicImage::crop_imm` and `DynamicImage::write_to` in
/// the JPEG format: what is written depends on the bytes and the square alone, and where
/// it can be read again it is a square of that side.
#[verifier::external_body]
fn crop_to_jpeg(data: &[u8], x: u32, y: u32, side: u32) -> (r: Option<Vec<u8>>)
    requires
        side > 0,
        image_size(data@) matches Some((w, h)) && x + side <= w && y + side <= h,
    ensures
        match r {
            Some(b) => jpeg_crop(data@, x, y, side) == Some(b@),
            None => jpeg_crop(data@, x, y, side) is None,
        },
        r matches Some(b) ==> (image_size(b@) matches Some(s) ==> s == (side, side)),
{
    let square = image::load_from_memory(data).ok()?.crop_imm(x, y, side, side);
    let mut buf = Vec::new();
    square.write_to(&mut std::io::Cursor::new(&mut buf), image::ImageFormat::Jpeg).ok()?;
    Some(buf)
}

/// What to do with an image of this size.
#[derive(Clone, Copy, PartialEq, Eq, Structural, Debug)]
pub enum Fit {
    /// It is no image, or too small.
    Reject,
    /// It is square.
    Keep,
    /// Cut the middle square out of it.
    Crop { x: u32, y: u32, side: u32 },
}

pub open spec fn lesser(a: u32, b: u32) -> u32 {
    if a <= b {
        a
    } else {
        b
    }
}

/// What to do with an image of this size.
pub open spec fn fit_of(size: Option<(u32, u32)>, min_dim: u32) -> Fit {
    match size {
        None => Fit::Reject,
        Some((w, h)) => {
            let side = lesser(w, h);
            if side < min_dim || (side == 0 && w != h) {
                Fit::Reject
            } else if w == h {
                Fit::Keep
            } else {
                Fit::Crop { x: ((w - side) / 2) as u32, y: ((h - side) / 2) as u32, side }
            }
        },
    }
}

/// What to do with an image of this size.
pub fn fit(size: Option<(u32, u32)>, min_dim: u32) -> (r: Fit)
    ensures
        r == fit_of(size, min_dim),
{
    match size {
        None => Fit::Reject,
        Some((w, h)) => {
            let side: u32 = if w <= h {
                w
            } else {
                h
            };
            if side < min_dim || (side == 0 && w != h) {
                Fit::Reject
            } else if w == h {
                Fit::Keep
            } else {
                Fit::Crop { x: (w - side) / 2, y: (h - side) / 2, side }
            }
        },
    }
}

pub const JPEG: &'static str = "image/jpeg";

pub const PNG: &'static str = "image/png";

/// A cover made fit for embedding: as it is where it is square, cut to its middle square
/// where it is not, and none where it is no image or too small.
pub open spec fn squared(pic: PictureV, min_dim: u32) -> Option<PictureV> {
    match fit_of(image_size(pic.data), min_dim) {
        Fit::Reject => None,
        Fit::Keep => Some(pic),
        Fit::Crop { x, y, side } => match jpeg_crop(pic.data, x, y, side) {
            Some(b) => Some(PictureV { kind: FRONT_COVER, mime: Some(JPEG@), description: None, data: b }),
            None => None,
        },
    }
}

/// A cover made fit for embedding. What comes out and can be read is square, its side is the
/// shorter edge of what went in, and that is no smaller than `min_dim`. A square one is not
/// changed.
pub fn validate_and_square(pic: &Picture, min_dim: u32) -> (r: Option<Picture>)
    ensures
        r.deep_view() == squared(pic.deep_view(), min_dim),
        r matches Some(p) ==> (image_size(pic.data@) matches Some((w, h)) && lesser(w, h) >= min_dim),
        r matches Some(p) ==> (image_size(pic.data@) matches Some((w, h)) ==> (image_size(p.data@) matches Some(s) ==> s
            == (lesser(w, h), lesser(w, h)))),
        image_size(pic.data@) matches Some((w, h)) && w == h && w >= min_dim ==> r.deep_view() == Some(pic.deep_view()),
{
    match fit(decode_size(pic.data.as_slice()), min_dim) {
        Fit::Reject => None,
        Fit::Keep => Some(copy_picture(pic)),
        Fit::Crop { x, y, side } => match crop_to_jpeg(pic.data.as_slice(), x, y, side) {
            Some(b) => Some(Picture { kind: FRONT_COVER, mime: Some(JPEG.to_string()), description: None, data: b }),
            None => None,
        },
    }
}

/// The four bytes that a PNG file starts with.
pub open spec fn starts_as_png(b: Seq<u8>) -> bool {
    b.len() >= 4 && b[0] == 0x89 && b[1] == 0x50 && b[2] == 0x4e && b[3] == 0x47
}

/// A downloaded picture: a front cover, PNG where its first bytes say so, else JPEG.
pub fn downloaded(data: Vec<u8>) -> (r: Picture)
    ensures
        r.deep_view() == (PictureV {
            kind: FRONT_COVER,
            mime: Some(
                if starts_as_png(data@) {
                    PNG@
                } else {
                    JPEG@
                },
            ),
            description: None,
            data: data@,
        }),
{
    let png = data.len() >= 4 && data[0] == 0x89 && data[1] == 0x50 && data[2] == 0x4e && data[3] == 0x47;
    let mime = if png {
        PNG.to_string()
    } else {
        JPEG.to_string()
    };
    Picture { kind: FRONT_COVER, mime: Some(mime), description: None, data }
}

/// An image is turned down exactly where there is none, it is too small, or it has no area to
/// cut from. A square one is kept as it is. Another is cut to the largest square in its
/// middle: as long as its shorter edge, with no more than one pixel more on one side than on
/// the other.
pub proof fn law_fit(size: Option<(u32, u32)>, min_dim: u32)
    ensures
        match size {
            None => fit_of(size, min_dim) == Fit::Reject,
            Some((w, h)) => match fit_of(size, min_dim) {
                Fit::Reject => w < min_dim || h < min_dim || (w != h && (w == 0 || h == 0)),
                Fit::Keep => w == h && w >= min_dim,
                Fit::Crop { x, y, side } => {
                    &&& w != h && side >= min_dim && side > 0
                    &&& side <= w && side <= h && (side == w || side == h)
                    &&& 0 <= (w - side - x) - x <= 1
                    &&& 0 <= (h - side - y) - y <= 1
                },
            },
        },
{
}

// ---- coverless albums ----------------------------------------------------------------------

/// What was seen of a file of the library.
#[derive(Debug)]
pub struct Seen {
    pub path: String,
    pub has_cover: bool,
    pub album: Option<String>,
    pub album_artist: Option<String>,
    pub artist: Option<String>,
}

#[verifier::ext_equal]
pub struct SeenV {
    pub path: Seq<char>,
    pub has_cover: bool,
    pub album: Option<Seq<char>>,
    pub album_artist: Option<Seq<char>>,
    pub artist: Option<Seq<char>>,
}

impl DeepView for Seen {
    type V = SeenV;

    open spec fn deep_view(&self) -> SeenV {
        SeenV {
            path: self.path@,
            has_cover: self.has_cover,
            album: self.album.deep_view(),
            album_artist: self.album_artist.deep_view(),
            artist: self.artist.deep_view(),
        }
    }
}

/// A coverless album: its title and artist as they are shown, and its tracks.
#[derive(Debug)]
pub struct AlbumGroup {
    pub display: String,
    pub artist: String,
    pub tracks: Vec<String>,
}

#[verifier::ext_equal]
pub struct AlbumGroupV {
    pub display: Seq<char>,
    pub artist: Seq<char>,
    pub tracks: Seq<Seq<char>>,
}

impl DeepView for AlbumGroup {
    type V = AlbumGroupV;

    open spec fn deep_view(&self) -> AlbumGroupV {
        AlbumGroupV { display: self.display@, artist: self.artist@, tracks: self.tracks.deep_view() }
    }
}

pub const UNKNOWN_ALBUM: &'static str = "(unknown album)";

pub const UNKNOWN_ARTIST: &'static str = "(unknown)";

pub open spec fn shown_album(s: SeenV) -> Seq<char> {
    match s.album {
        Some(a) => a,
        None => UNKNOWN_ALBUM@,
    }
}

pub open spec fn shown_artist(s: SeenV) -> Seq<char> {
    match s.album_artist {
        Some(a) => a,
        None => match s.artist {
            Some(a) => a,
            None => UNKNOWN_ARTIST@,
        },
    }
}

/// The places of those of the first `n` files that have no cover.
pub open spec fn coverless_upto(fs: Seq<SeenV>, n: int) -> Seq<int>
    decreases n,
{
    if n <= 0 {
        seq![]
    } else if fs[n - 1].has_cover {
        coverless_upto(fs, n - 1)
    } else {
        coverless_upto(fs, n - 1).push(n - 1)
    }
}

pub open spec fn coverless(fs: Seq<SeenV>) -> Seq<int> {
    coverless_upto(fs, fs.len() as int)
}

pub open spec fn album_keys(fs: Seq<SeenV>) -> Seq<Seq<int>> {
    coverless(fs).map_values(|x: int| text_key(album_key(shown_album(fs[x]))))
}

/// The album of one group of coverless files: it is shown as its first file shows it.
pub open spec fn album_of(fs: Seq<SeenV>, g: Seq<int>) -> AlbumGroupV {
    let c = coverless(fs);
    AlbumGroupV {
        display: shown_album(fs[c[g[0]]]),
        artist: shown_artist(fs[c[g[0]]]),
        tracks: g.map_values(|k: int| fs[c[k]].path),
    }
}

pub open spec fn unsorted_albums(fs: Seq<SeenV>) -> Seq<AlbumGroupV> {
    groups_of(album_keys(fs)).map_values(|g: Seq<int>| album_of(fs, g))
}

pub open spec fn group_key(a: AlbumGroupV) -> Seq<int> {
    seq![-(a.tracks.len() as int)] + text_key(a.display)
}

/// The coverless albums, the most tracks first, then by title.
pub open spec fn albums_without_cover(fs: Seq<SeenV>) -> Seq<AlbumGroupV> {
    let v = unsorted_albums(fs);
    arranged(v, order_of(v.map_values(|a: AlbumGroupV| group_key(a))))
}

fn album_shown(s: &Seen) -> (r: String)
    ensures
        r@ == shown_album(s.deep_view()),
{
    match &s.album {
        Some(a) => a.clone(),
        None => UNKNOWN_ALBUM.to_string(),
    }
}

fn artist_shown(s: &Seen) -> (r: String)
    ensures
        r@ == shown_artist(s.deep_view()),
{
    match &s.album_artist {
        Some(a) => a.clone(),
        None => match &s.artist {
            Some(a) => a.clone(),
            None => UNKNOWN_ARTIST.to_string(),
        },
    }
}

fn coverless_places(files: &[Seen]) -> (r: Vec<usize>)
    ensures
        place_ints(r@) == coverless(files.deep_view()),
        forall|i: int| 0 <= i < r@.len() ==> (#[trigger] r@[i]) < files@.len(),
{
    let ghost fs = files.deep_view();
    let mut out: Vec<usize> = Vec::new();
    let mut i: usize = 0;
    assert(place_ints(out@) =~= coverless_upto(fs, 0));
    while i < files.len()
        invariant
            i <= files@.len(),
            fs == files.deep_view(),
            place_ints(out@) == coverless_upto(fs, i as int),
            forall|k: int| 0 <= k < out@.len() ==> (#[trigger] out@[k]) < files@.len(),
        decreases files@.len() - i,
    {
        let ghost before = place_ints(out@);
        assert(fs[i as int] == files@[i as int].deep_view());
        if !files[i].has_cover {
            out.push(i);
            assert(place_ints(out@) =~= before.push(i as int));
        }
        i += 1;
    }
    out
}

fn make_album(files: &[Seen], c: &[usize], g: &[usize]) -> (r: AlbumGroup)
    requires
        place_ints(c@) == coverless(files.deep_view()),
        forall|i: int| 0 <= i < c@.len() ==> (#[trigger] c@[i]) < files@.len(),
        g@.len() > 0,
        forall|i: int| 0 <= i < g@.len() ==> (#[trigger] g@[i]) < c@.len(),
    ensures
        r.deep_view() == album_of(files.deep_view(), place_ints(g@)),
{
    let ghost fs = files.deep_view();
    let ghost cv = place_ints(c@);
    let ghost want = place_ints(g@).map_values(|k: int| fs[cv[k]].path);
    let mut tracks: Vec<String> = Vec::new();
    let mut i: usize = 0;
    while i < g.len()
        invariant
            i <= g@.len(),
            fs == files.deep_view(),
            cv == place_ints(c@),
            forall|i: int| 0 <= i < c@.len() ==> (#[trigger] c@[i]) < files@.len(),
            forall|i: int| 0 <= i < g@.len() ==> (#[trigger] g@[i]) < c@.len(),
            want == place_ints(g@).map_values(|k: int| fs[cv[k]].path),
            tracks.deep_view() == want.take(i as int),
        decreases g@.len() - i,
    {
        let ghost before = tracks.deep_view();
        let x: usize = c[g[i]];
        tracks.push(files[x].path.clone());
        proof {
            assert(place_ints(g@)[i as int] == g@[i as int]);
            assert(cv[g@[i as int] as int] == x);
            assert(want[i as int] == files@[x as int].path@);
            assert(tracks.deep_view() =~= before.push(want[i as int]));
            assert(want.take(i + 1) =~= want.take(i as int).push(want[i as int]));
        }
        i += 1;
    }
    let first = &files[c[g[0]]];
    proof {
        assert(want.take(i as int) =~= want);
        assert(place_ints(g@)[0] == g@[0]);
        assert(cv[g@[0] as int] == c@[g@[0] as int]);
    }
    AlbumGroup { display: album_shown(first), artist: artist_shown(first), tracks }
}

/// The coverless albums, grouped by title as it is compared, the most tracks first: so
/// that each cover found covers as much as it can.
pub fn coverless_albums(files: &[Seen]) -> (r: Vec<AlbumGroup>)
    ensures
        r.deep_view() == albums_without_cover(files.deep_view()),
{
    let ghost fs = files.deep_view();
    let c = coverless_places(files);
    let ghost cv = place_ints(c@);
    let ghost want_keys = album_keys(fs);
    let mut keys: Vec<Vec<i128>> = Vec::new();
    let mut i: usize = 0;
    while i < c.len()
        invariant
            i <= c@.len(),
            fs == files.deep_view(),
            cv == place_ints(c@),
            cv == coverless(fs),
            want_keys == album_keys(fs),
            forall|i: int| 0 <= i < c@.len() ==> (#[trigger] c@[i]) < files@.len(),
            keys@.len() == i,
            keys_ints(keys@) == want_keys.take(i as int),
        decreases c@.len() - i,
    {
        let ghost before = keys_ints(keys@);
        let mut k: Vec<i128> = Vec::new();
        push_text_key(&mut k, norm_album(album_shown(&files[c[i]]).as_str()).as_str());
        proof {
            assert(cv[i as int] == c@[i as int]);
            assert(key_ints(k@) =~= want_keys[i as int]);
        }
        keys.push(k);
        proof {
            assert(keys_ints(keys@) =~= before.push(want_keys[i as int]));
            assert(want_keys.take(i + 1) =~= want_keys.take(i as int).push(want_keys[i as int]));
        }
        i += 1;
    }
    assert(want_keys.take(i as int) =~= want_keys);
    let gs = group(&keys);
    let ghost gv = group_ints(gs@);
    let ghost want = unsorted_albums(fs);
    let mut v: Vec<AlbumGroup> = Vec::new();
    let mut order: Vec<Vec<i128>> = Vec::new();
    let mut n: usize = 0;
    assert(gs@.len() == gv.len());
    while n < gs.len()
        invariant
            n <= gs@.len(),
            fs == files.deep_view(),
            place_ints(c@) == coverless(fs),
            forall|i: int| 0 <= i < c@.len() ==> (#[trigger] c@[i]) < files@.len(),
            gv == group_ints(gs@),
            gv == groups_of(album_keys(fs)),
            want == unsorted_albums(fs),
            forall|k: int, i: int| 0 <= k < gs@.len() && 0 <= i < gs@[k]@.len() ==> (#[trigger] gs@[k]@[i]) < c@.len(),
            forall|k: int| 0 <= k < gs@.len() ==> (#[trigger] gs@[k])@.len() > 0,
            v.deep_view() == want.take(n as int),
            keys_ints(order@) == want.take(n as int).map_values(|a: AlbumGroupV| group_key(a)),
            order@.len() == v@.len(),
        decreases gs@.len() - n,
    {
        let ghost before = v.deep_view();
        let ghost before_k = keys_ints(order@);
        assert(gv[n as int] == place_ints(gs@[n as int]@));
        assert(gs@[n as int]@.len() > 0);
        let a = make_album(files, &c, gs[n].as_slice());
        let ghost av = a.deep_view();
        assert(av =~= want[n as int]);
        let mut k: Vec<i128> = Vec::new();
        k.push(-(a.tracks.len() as i128));
        push_text_key(&mut k, a.display.as_str());
        assert(key_ints(k@) =~= group_key(av));
        v.push(a);
        order.push(k);
        proof {
            assert(v.deep_view() =~= before.push(av));
            assert(want.take(n + 1) =~= want.take(n as int).push(av));
            assert(keys_ints(order@) =~= before_k.push(group_key(av)));
            assert(want.take(n + 1).map_values(|a: AlbumGroupV| group_key(a)) =~= before_k.push(group_key(av)));
        }
        n += 1;
    }
    assert(want.take(n as int) =~= want);
    let o = sort_order(&order);
    proof {
        lemma_order_len(keys_ints(order@), place_ints(o@));
    }
    let r = arrange(v, &o);
    assert(r.deep_view() =~= albums_without_cover(fs));
    r
}

/// Only files without a cover are in an album that gets one, and all of them are.
pub proof fn law_only_coverless(fs: Seq<SeenV>, x: int)
    requires
        0 <= x < fs.len(),
    ensures
        coverless(fs).contains(x) <==> !fs[x].has_cover,
{
    lemma_coverless(fs, fs.len() as int, x);
}

proof fn lemma_coverless(fs: Seq<SeenV>, n: int, x: int)
    requires
        n <= fs.len(),
    ensures
        coverless_upto(fs, n).contains(x) <==> 0 <= x < n && !fs[x].has_cover,
    decreases n,
{
    if n > 0 {
        lemma_coverless(fs, n - 1, x);
        let before = coverless_upto(fs, n - 1);
        let now = coverless_upto(fs, n);
        if !fs[n - 1].has_cover {
            assert(now.last() == n - 1);
            if before.contains(x) {
                let k = choose|k: int| 0 <= k < before.len() && before[k] == x;
                assert(now[k] == x);
            }
            if now.contains(x) && x != n - 1 {
                let k = choose|k: int| 0 <= k < now.len() && now[k] == x;
                assert(before[k] == x);
            }
        }
    }
}

/// Two coverless files are in one album exactly where their titles agree as they are
/// compared: discs, editions and spellings fall together, other albums do not.
pub proof fn law_albums_group(fs: Seq<SeenV>, i: int, j: int)
    requires
        0 <= i < coverless(fs).len(),
        0 <= j < coverless(fs).len(),
    ensures
        together(groups_of(album_keys(fs)), i, j) <==> album_key(shown_album(fs[coverless(fs)[i]])) == album_key(
            shown_album(fs[coverless(fs)[j]]),
        ),
{
    law_groups(album_keys(fs), i, j);
    let a = album_key(shown_album(fs[coverless(fs)[i]]));
    let b = album_key(shown_album(fs[coverless(fs)[j]]));
    assert(album_keys(fs)[i] == text_key(a));
    assert(album_keys(fs)[j] == text_key(b));
    if text_key(a) == text_key(b) {
        assert(text_key(a) + seq![] =~= text_key(a));
        assert(text_key(b) + seq![] =~= text_key(b));
        lemma_text_key_front(a, seq![], b, seq![]);
    }
}

/// A coverless album is all the files without a cover whose album titles agree as they are
/// compared, in the order in which they were found. It is shown with the title and the artist
/// of the first of them: the album artist, else the artist. The places of its files are given.
pub proof fn law_coverless_album(fs: Seq<SeenV>, p: int) -> (g: Seq<int>)
    requires
        0 <= p < albums_without_cover(fs).len(),
    ensures
        ({
            let a = albums_without_cover(fs)[p];
            &&& g.len() > 0
            &&& forall|x: int| #[trigger]
                g.contains(x) <==> 0 <= x < fs.len() && !fs[x].has_cover && album_key(
                    match fs[x].album {
                        Some(t) => t,
                        None => "(unknown album)"@,
                    },
                ) == album_key(a.display)
            &&& forall|i: int, j: int| 0 <= i < j < g.len() ==> #[trigger] g[i] < #[trigger] g[j]
            &&& a.tracks == g.map_values(|x: int| fs[x].path)
            &&& a.display == (match fs[g[0]].album {
                Some(t) => t,
                None => "(unknown album)"@,
            })
            &&& a.artist == (match (fs[g[0]].album_artist, fs[g[0]].artist) {
                (Some(t), _) => t,
                (None, Some(t)) => t,
                (None, None) => "(unknown)"@,
            })
        }),
{
    let c = coverless(fs);
    let keys = album_keys(fs);
    let gs = groups_of(keys);
    let v = unsorted_albums(fs);
    let order = v.map_values(|a: AlbumGroupV| group_key(a));
    law_sorted(v, order);
    let k = order_of(order)[p];
    let h = gs[k];
    law_group_members(keys, k);
    lemma_coverless_ascends(fs, fs.len() as int);
    let a = albums_without_cover(fs)[p];
    assert(a == album_of(fs, h));
    let g = h.map_values(|i: int| c[i]);
    assert(a.tracks =~= g.map_values(|x: int| fs[x].path));
    assert forall|x: int| #[trigger] g.contains(x) <==> 0 <= x < fs.len() && !fs[x].has_cover && album_key(
        shown_album(fs[x]),
    ) == album_key(a.display) by {
        lemma_coverless(fs, fs.len() as int, x);
        if g.contains(x) {
            let j = choose|j: int| 0 <= j < g.len() && g[j] == x;
            assert(c[h[j]] == x);
            assert(c.contains(x));
            assert(keys[h[j]] == keys[h[0]]);
            lemma_same_album(fs, h[j], h[0]);
        }
        if 0 <= x < fs.len() && !fs[x].has_cover && album_key(shown_album(fs[x])) == album_key(a.display) {
            let i = choose|i: int| 0 <= i < c.len() && c[i] == x;
            lemma_same_album(fs, i, h[0]);
            assert(h.contains(i));
            let j = choose|j: int| 0 <= j < h.len() && h[j] == i;
            assert(g[j] == x);
        }
    }
    g
}

proof fn lemma_same_album(fs: Seq<SeenV>, i: int, j: int)
    requires
        0 <= i < coverless(fs).len(),
        0 <= j < coverless(fs).len(),
    ensures
        album_keys(fs)[i] == album_keys(fs)[j] <==> album_key(shown_album(fs[coverless(fs)[i]])) == album_key(
            shown_album(fs[coverless(fs)[j]]),
        ),
{
    law_albums_group(fs, i, j);
    law_groups(album_keys(fs), i, j);
}

proof fn lemma_coverless_ascends(fs: Seq<SeenV>, n: int)
    requires
        0 <= n <= fs.len(),
    ensures
        forall|i: int| 0 <= i < coverless_upto(fs, n).len() ==> 0 <= #[trigger] coverless_upto(fs, n)[i] < n,
        forall|i: int, j: int|
            0 <= i < j < coverless_upto(fs, n).len() ==> #[trigger] coverless_upto(fs, n)[i] < #[trigger] coverless_upto(
                fs,
                n,
            )[j],
    decreases n,
{
    if n > 0 {
        lemma_coverless_ascends(fs, n - 1);
        let before = coverless_upto(fs, n - 1);
        let now = coverless_upto(fs, n);
        assert forall|i: int| 0 <= i < now.len() implies 0 <= #[trigger] now[i] < n by {
            if i < before.len() {
                assert(now[i] == before[i]);
            }
        }
        assert forall|i: int, j: int| 0 <= i < j < now.len() implies #[trigger] now[i] < #[trigger] now[j] by {
            assert(now[i] == before[i]);
            if j < before.len() {
                assert(now[j] == before[j]);
            }
        }
    }
}

/// Every file without a cover is in an album of the list, and no two albums of the list agree
/// as they are compared. The albums go by how many tracks they have, the most first, then by
/// title.
pub proof fn law_coverless_albums(fs: Seq<SeenV>)
    ensures
        forall|x: int|
            0 <= x < fs.len() && !(#[trigger] fs[x]).has_cover ==> exists|p: int|
                0 <= p < albums_without_cover(fs).len() && album_key((#[trigger] albums_without_cover(fs)[p]).display)
                    == album_key(
                    match fs[x].album {
                        Some(t) => t,
                        None => "(unknown album)"@,
                    },
                ),
        forall|p: int, q: int|
            0 <= p < q < albums_without_cover(fs).len() ==> {
                let a = #[trigger] albums_without_cover(fs)[p];
                let b = #[trigger] albums_without_cover(fs)[q];
                &&& album_key(a.display) != album_key(b.display)
                &&& a.tracks.len() > b.tracks.len() || (a.tracks.len() == b.tracks.len() && !less(
                    text_key(b.display),
                    text_key(a.display),
                ))
            },
{
    let c = coverless(fs);
    let keys = album_keys(fs);
    let gs = groups_of(keys);
    let v = unsorted_albums(fs);
    let order = v.map_values(|a: AlbumGroupV| group_key(a));
    law_sorted(v, order);
    let o = order_of(order);
    let d = albums_without_cover(fs);
    assert forall|x: int| 0 <= x < fs.len() && !(#[trigger] fs[x]).has_cover implies exists|p: int|
        0 <= p < d.len() && album_key((#[trigger] d[p]).display) == album_key(shown_album(fs[x])) by {
        lemma_coverless(fs, fs.len() as int, x);
        let i = choose|i: int| 0 <= i < c.len() && c[i] == x;
        law_groups(keys, i, i);
        let k = choose|k: int| 0 <= k < gs.len() && (#[trigger] gs[k]).contains(i) && gs[k].contains(i);
        law_group_members(keys, k);
        lemma_same_album(fs, i, gs[k][0]);
        assert(o.contains(k));
        let p = choose|p: int| 0 <= p < o.len() && o[p] == k;
        assert(d[p] == album_of(fs, gs[k]));
    }
    assert forall|p: int, q: int| 0 <= p < q < d.len() implies {
        let a = #[trigger] d[p];
        let b = #[trigger] d[q];
        &&& album_key(a.display) != album_key(b.display)
        &&& a.tracks.len() > b.tracks.len() || (a.tracks.len() == b.tracks.len() && !less(
            text_key(b.display),
            text_key(a.display),
        ))
    } by {
        lemma_albums_listed(fs, p, q);
        let (k, l) = (o[p], o[q]);
        assert(k != l);
        law_group_members(keys, k);
        law_group_members(keys, l);
        assert(d[p] == album_of(fs, gs[k]) && d[q] == album_of(fs, gs[l]));
        lemma_same_album(fs, gs[k][0], gs[l][0]);
        if k < l {
            assert(less(keys[gs[k][0]], keys[gs[l][0]]));
            lemma_less_asymmetric(keys[gs[k][0]], keys[gs[l][0]], 0);
        } else {
            assert(less(keys[gs[l][0]], keys[gs[k][0]]));
            lemma_less_asymmetric(keys[gs[l][0]], keys[gs[k][0]], 0);
        }
    }
}

// ---- the funnel ----------------------------------------------------------------------------

/// Where a cover can come from, the safest first.
#[derive(Clone, Copy, PartialEq, Eq, Structural, Debug)]
pub enum Pass {
    /// The source library.
    Source,
    /// Another library that holds the same album.
    Reference,
    /// The online services.
    Online,
}

/// The place of a pass in the order in which they are made.
pub open spec fn pass_rank(p: Pass) -> int {
    match p {
        Pass::Source => 0,
        Pass::Reference => 1,
        Pass::Online => 2,
    }
}

/// Whether there is anything to look in: a source library, another library that holds the
/// album with a cover, or leave to ask online.
pub open spec fn pass_open(p: Pass, source: bool, reference: bool, online: bool) -> bool {
    match p {
        Pass::Source => source,
        Pass::Reference => reference,
        Pass::Online => online,
    }
}

/// The pass that is made after `tried`, or first of all: none after a hit, else the next
/// that has anything to look in.
pub open spec fn pass_after(
    tried: Option<Pass>,
    found: bool,
    source: bool,
    reference: bool,
    online: bool,
) -> Option<Pass> {
    let done = match tried {
        Some(p) => pass_rank(p),
        None => -1,
    };
    if found {
        None
    } else if done < 0 && source {
        Some(Pass::Source)
    } else if done < 1 && reference {
        Some(Pass::Reference)
    } else if done < 2 && online {
        Some(Pass::Online)
    } else {
        None
    }
}

/// The pass that is made after `tried`, or first of all.
pub fn next_pass(
    tried: Option<Pass>,
    found: bool,
    source: bool,
    reference: bool,
    online: bool,
) -> (r: Option<Pass>)
    ensures
        r == pass_after(tried, found, source, reference, online),
{
    if found {
        return None;
    }
    let done: u8 = match tried {
        None => 0,
        Some(Pass::Source) => 1,
        Some(Pass::Reference) => 2,
        Some(Pass::Online) => 3,
    };
    if done < 1 && source {
        Some(Pass::Source)
    } else if done < 2 && reference {
        Some(Pass::Reference)
    } else if done < 3 && online {
        Some(Pass::Online)
    } else {
        None
    }
}

/// The first valid cover ends the search; until then every pass that has anything to look in
/// is made, once, the safest first.
pub proof fn law_safest_first(tried: Option<Pass>, found: bool, source: bool, reference: bool, online: bool)
    ensures
        ({
            let done = match tried {
                Some(p) => pass_rank(p),
                None => -1,
            };
            match pass_after(tried, found, source, reference, online) {
                Some(p) => {
                    &&& !found && pass_open(p, source, reference, online) && pass_rank(p) > done
                    &&& forall|q: Pass|
                        done < #[trigger] pass_rank(q) < pass_rank(p) ==> !pass_open(q, source, reference, online)
                },
                None => found || forall|q: Pass| #[trigger]
                    pass_rank(q) > done ==> !pass_open(q, source, reference, online),
            }
        }),
{
}

/// The first file from `i` on that has a cover and is of this album.
pub open spec fn reference_from(fs: Seq<SeenV>, key: Seq<char>, i: int) -> Option<int>
    decreases fs.len() - i,
{
    if i < 0 || i >= fs.len() {
        None
    } else if fs[i].has_cover && (fs[i].album matches Some(a) && album_key(a) == key) {
        Some(i)
    } else {
        reference_from(fs, key, i + 1)
    }
}

/// The first file of the other libraries that has a cover and is of the same album.
pub fn reference_for(files: &[Seen], display: &str) -> (r: Option<usize>)
    ensures
        match r {
            Some(k) => k < files@.len() && reference_from(files.deep_view(), album_key(display@), 0) == Some(k as int),
            None => reference_from(files.deep_view(), album_key(display@), 0) is None,
        },
{
    let key = norm_album(display);
    let ghost fs = files.deep_view();
    let mut i: usize = 0;
    while i < files.len()
        invariant
            i <= files@.len(),
            fs == files.deep_view(),
            key@ == album_key(display@),
            reference_from(fs, key@, 0) == reference_from(fs, key@, i as int),
        decreases files@.len() - i,
    {
        assert(fs[i as int] == files@[i as int].deep_view());
        if files[i].has_cover {
            if let Some(a) = &files[i].album {
                if norm_album(a.as_str()) == key {
                    return Some(i);
                }
            }
        }
        i += 1;
    }
    None
}

/// How the search for an album's cover ended.
#[derive(Clone, Copy, PartialEq, Eq, Structural, Debug)]
pub enum Found {
    /// A cover from there went into so many tracks.
    From(Pass, usize),
    Nothing,
}

/// How the search ended where `pass` gave a cover: a dry run counts every track of the album,
/// else those count that it went into.
pub fn found_by(pass: Pass, tracks: usize, dry_run: bool, embedded: usize) -> (r: Found)
    ensures
        r == Found::From(
            pass,
            if dry_run {
                tracks
            } else {
                embedded
            },
        ),
{
    if dry_run {
        Found::From(pass, tracks)
    } else {
        Found::From(pass, embedded)
    }
}

/// An album that is still without a cover.
#[derive(Debug)]
pub struct Straggler {
    /// Its number in the list, from one.
    pub n: usize,
    pub album: String,
    pub artist: String,
    pub tracks: usize,
}

#[verifier::ext_equal]
pub struct StragglerV {
    pub n: int,
    pub album: Seq<char>,
    pub artist: Seq<char>,
    pub tracks: int,
}

impl DeepView for Straggler {
    type V = StragglerV;

    open spec fn deep_view(&self) -> StragglerV {
        StragglerV { n: self.n as int, album: self.album@, artist: self.artist@, tracks: self.tracks as int }
    }
}

#[derive(Debug)]
pub struct Report {
    pub coverless_albums: usize,
    pub filled_from_source: usize,
    pub filled_from_reference: usize,
    pub filled_online: usize,
    pub albums_filled: usize,
    pub dry_run: bool,
    pub stragglers: Vec<Straggler>,
}

/// How many tracks the first `n` albums got from `pass`.
pub open spec fn filled_by(found: Seq<Found>, pass: Pass, n: int) -> nat
    decreases n,
{
    if n <= 0 {
        0
    } else {
        filled_by(found, pass, n - 1) + (match found[n - 1] {
            Found::From(p, k) if p == pass => k as nat,
            _ => 0,
        })
    }
}

/// How many of the first `n` albums got a cover.
pub open spec fn albums_filled_of(found: Seq<Found>, n: int) -> nat
    decreases n,
{
    if n <= 0 {
        0
    } else if found[n - 1] is From {
        albums_filled_of(found, n - 1) + 1
    } else {
        albums_filled_of(found, n - 1)
    }
}

/// The albums among the first `n` that got none, in order, numbered from one. They are
/// in the order of the albums: the most tracks first, then by title.
pub open spec fn stragglers_upto(albums: Seq<AlbumGroupV>, found: Seq<Found>, n: int) -> Seq<StragglerV>
    decreases n,
{
    if n <= 0 {
        seq![]
    } else {
        let before = stragglers_upto(albums, found, n - 1);
        if found[n - 1] is From {
            before
        } else {
            before.push(
                StragglerV {
                    n: before.len() as int + 1,
                    album: albums[n - 1].display,
                    artist: albums[n - 1].artist,
                    tracks: albums[n - 1].tracks.len() as int,
                },
            )
        }
    }
}

/// The order of the list: the most tracks first, then by title.
pub open spec fn listed_before(a: StragglerV, b: StragglerV) -> bool {
    a.tracks > b.tracks || (a.tracks == b.tracks && !less(text_key(b.album), text_key(a.album)))
}

/// A key that both begin with makes no difference.
proof fn lemma_less_behind(x: int, a: Seq<int>, b: Seq<int>, i: int)
    requires
        0 <= i,
    ensures
        less_from(seq![x] + a, seq![x] + b, i + 1) == less_from(a, b, i),
{
    crate::sort::lemma_less_behind(x, a, b, i);
}

/// The coverless albums have the most tracks first, then go by title.
proof fn lemma_albums_listed(fs: Seq<SeenV>, i: int, j: int)
    requires
        0 <= i < j < albums_without_cover(fs).len(),
    ensures
        ({
            let a = albums_without_cover(fs)[i];
            let b = albums_without_cover(fs)[j];
            a.tracks.len() > b.tracks.len() || (a.tracks.len() == b.tracks.len() && !less(
                text_key(b.display),
                text_key(a.display),
            ))
        }),
{
    let v = unsorted_albums(fs);
    let keys = v.map_values(|a: AlbumGroupV| group_key(a));
    let o = order_of(keys);
    lemma_order_exists(keys);
    let a = v[o[i]];
    let b = v[o[j]];
    assert(precedes(keys, o[i], o[j]));
    assert(keys[o[i]] == group_key(a));
    assert(keys[o[j]] == group_key(b));
    lemma_less_asymmetric(group_key(a), group_key(b), 0);
    assert(!less_from(group_key(b), group_key(a), 0));
    assert(group_key(a)[0] == -(a.tracks.len() as int));
    assert(group_key(b)[0] == -(b.tracks.len() as int));
    lemma_less_behind(-(a.tracks.len() as int), text_key(b.display), text_key(a.display), 0);
}

proof fn lemma_stragglers_listed(fs: Seq<SeenV>, found: Seq<Found>, n: int)
    requires
        0 <= n <= albums_without_cover(fs).len(),
    ensures
        ({
            let albums = albums_without_cover(fs);
            let s = stragglers_upto(albums, found, n);
            &&& forall|i: int| 0 <= i < s.len() ==> (#[trigger] s[i]).n == i + 1
            &&& forall|i: int, j: int| 0 <= i < j < s.len() ==> listed_before(#[trigger] s[i], #[trigger] s[j])
            &&& forall|i: int|
                0 <= i < s.len() ==> exists|p: int|
                    0 <= p < n && (#[trigger] albums[p]).display == (#[trigger] s[i]).album && albums[p].tracks.len()
                        == s[i].tracks
        }),
    decreases n,
{
    if n > 0 {
        lemma_stragglers_listed(fs, found, n - 1);
        let albums = albums_without_cover(fs);
        let before = stragglers_upto(albums, found, n - 1);
        let s = stragglers_upto(albums, found, n);
        assert forall|i: int, j: int| 0 <= i < j < s.len() implies listed_before(#[trigger] s[i], #[trigger] s[j]) by {
            assert(s[i] == before[i]);
            if j < before.len() {
                assert(s[j] == before[j]);
            } else {
                let p = choose|p: int|
                    0 <= p < n - 1 && (#[trigger] albums[p]).display == before[i].album && albums[p].tracks.len()
                        == before[i].tracks;
                lemma_albums_listed(fs, p, n - 1);
            }
        }
        assert forall|i: int| 0 <= i < s.len() implies exists|p: int|
            0 <= p < n && (#[trigger] albums[p]).display == (#[trigger] s[i]).album && albums[p].tracks.len()
                == s[i].tracks by {
            if i < before.len() {
                assert(s[i] == before[i]);
            } else {
                assert(albums[n - 1].display == s[i].album);
            }
        }
    }
}

/// The albums that are left without a cover are listed by what they weigh: the most tracks
/// first, those with as many by title, and numbered from one in that order.
pub proof fn law_stragglers_listed(fs: Seq<SeenV>, found: Seq<Found>)
    requires
        found.len() == albums_without_cover(fs).len(),
    ensures
        ({
            let s = stragglers_upto(albums_without_cover(fs), found, found.len() as int);
            &&& forall|i: int| 0 <= i < s.len() ==> (#[trigger] s[i]).n == i + 1
            &&& forall|i: int, j: int| 0 <= i < j < s.len() ==> listed_before(#[trigger] s[i], #[trigger] s[j])
        }),
{
    lemma_stragglers_listed(fs, found, found.len() as int);
}

/// A number that fits, or the largest that does.
pub open spec fn fitting(n: nat) -> int {
    if n <= usize::MAX {
        n as int
    } else {
        usize::MAX as int
    }
}

fn sum_filled(found: &[Found], pass: Pass) -> (r: usize)
    ensures
        r == fitting(filled_by(found@, pass, found@.len() as int)),
{
    let mut total: usize = 0;
    let mut i: usize = 0;
    while i < found.len()
        invariant
            i <= found@.len(),
            total == fitting(filled_by(found@, pass, i as int)),
        decreases found@.len() - i,
    {
        if let Found::From(p, k) = found[i] {
            if p == pass {
                total = if usize::MAX - total < k {
                    usize::MAX
                } else {
                    total + k
                };
            }
        }
        i += 1;
    }
    total
}

/// The report on a run over these coverless albums, which ended so.
pub fn summarize(albums: &[AlbumGroup], found: &[Found], dry_run: bool) -> (r: Report)
    requires
        albums@.len() == found@.len(),
    ensures
        r.coverless_albums == albums@.len(),
        r.filled_from_source == fitting(filled_by(found@, Pass::Source, found@.len() as int)),
        r.filled_from_reference == fitting(filled_by(found@, Pass::Reference, found@.len() as int)),
        r.filled_online == fitting(filled_by(found@, Pass::Online, found@.len() as int)),
        r.albums_filled == albums_filled_of(found@, found@.len() as int),
        r.dry_run == dry_run,
        r.stragglers.deep_view() == stragglers_upto(albums.deep_view(), found@, found@.len() as int),
{
    let ghost av = albums.deep_view();
    let mut filled: usize = 0;
    let mut stragglers: Vec<Straggler> = Vec::new();
    let mut i: usize = 0;
    assert(stragglers.deep_view() =~= stragglers_upto(av, found@, 0));
    while i < found.len()
        invariant
            i <= found@.len(),
            found@.len() == albums@.len(),
            av == albums.deep_view(),
            filled <= i,
            filled == albums_filled_of(found@, i as int),
            stragglers@.len() <= i,
            stragglers.deep_view() == stragglers_upto(av, found@, i as int),
        decreases found@.len() - i,
    {
        let ghost before = stragglers.deep_view();
        assert(av[i as int] == albums@[i as int].deep_view());
        match found[i] {
            Found::From(_, _) => {
                filled += 1;
            },
            Found::Nothing => {
                let n: usize = stragglers.len() + 1;
                let s = Straggler {
                    n,
                    album: albums[i].display.clone(),
                    artist: albums[i].artist.clone(),
                    tracks: albums[i].tracks.len(),
                };
                let ghost sv = s.deep_view();
                stragglers.push(s);
                assert(stragglers.deep_view() =~= before.push(sv));
            },
        }
        i += 1;
    }
    Report {
        coverless_albums: albums.len(),
        filled_from_source: sum_filled(found, Pass::Source),
        filled_from_reference: sum_filled(found, Pass::Reference),
        filled_online: sum_filled(found, Pass::Online),
        albums_filled: filled,
        dry_run,
        stragglers,
    }
}

/// Every coverless album is either filled or a straggler.
pub proof fn law_albums_accounted(albums: Seq<AlbumGroupV>, found: Seq<Found>, n: int)
    requires
        0 <= n <= found.len(),
    ensures
        albums_filled_of(found, n) + stragglers_upto(albums, found, n).len() == n,
    decreases n,
{
    if n > 0 {
        law_albums_accounted(albums, found, n - 1);
    }
}

/// The file that lends its cover is the first that has one and carries the same album, as
/// albums are compared.
pub proof fn law_reference(fs: Seq<SeenV>, key: Seq<char>)
    ensures
        match reference_from(fs, key, 0) {
            Some(k) => 0 <= k < fs.len() && lends(fs[k], key) && forall|j: int| 0 <= j < k ==> !lends(#[trigger] fs[j], key),
            None => forall|j: int| 0 <= j < fs.len() ==> !lends(#[trigger] fs[j], key),
        },
{
    lemma_reference(fs, key, 0);
}

/// A file has a cover, and its album is compared by this key.
pub open spec fn lends(f: SeenV, key: Seq<char>) -> bool {
    f.has_cover && keyed(f.album) == Some(key)
}

proof fn lemma_reference(fs: Seq<SeenV>, key: Seq<char>, i: int)
    requires
        0 <= i,
    ensures
        match reference_from(fs, key, i) {
            Some(k) => i <= k < fs.len() && lends(fs[k], key) && forall|j: int| i <= j < k ==> !lends(#[trigger] fs[j], key),
            None => forall|j: int| i <= j < fs.len() ==> !lends(#[trigger] fs[j], key),
        },
    decreases fs.len() - i,
{
    if i < fs.len() && !lends(fs[i], key) {
        lemma_reference(fs, key, i + 1);
    }
}

/// Every album that got no cover is listed, with its title, its artist and how many tracks it
/// has, and no other is.
pub proof fn law_stragglers(albums: Seq<AlbumGroupV>, found: Seq<Found>)
    requires
        found.len() == albums.len(),
    ensures
        forall|k: int|
            0 <= k < albums.len() && found[k] == Found::Nothing ==> is_listed(
                stragglers_upto(albums, found, found.len() as int),
                #[trigger] albums[k],
            ),
        forall|i: int|
            0 <= i < stragglers_upto(albums, found, found.len() as int).len() ==> is_left(
                albums,
                found,
                found.len() as int,
                #[trigger] stragglers_upto(albums, found, found.len() as int)[i],
            ),
{
    lemma_stragglers(albums, found, found.len() as int);
}

/// A line of the list is about this album.
pub open spec fn straggles(s: StragglerV, a: AlbumGroupV) -> bool {
    s.album == a.display && s.artist == a.artist && s.tracks == a.tracks.len()
}

/// One of the lines is about this album.
pub open spec fn is_listed(s: Seq<StragglerV>, a: AlbumGroupV) -> bool {
    exists|i: int| 0 <= i < s.len() && straggles(#[trigger] s[i], a)
}

/// A line is about one of the first `n` albums that got no cover.
pub open spec fn is_left(albums: Seq<AlbumGroupV>, found: Seq<Found>, n: int, s: StragglerV) -> bool {
    exists|k: int| 0 <= k < n && found[k] == Found::Nothing && straggles(s, #[trigger] albums[k])
}

proof fn lemma_stragglers(albums: Seq<AlbumGroupV>, found: Seq<Found>, n: int)
    requires
        found.len() == albums.len(),
        0 <= n <= found.len(),
    ensures
        forall|k: int|
            0 <= k < n && found[k] == Found::Nothing ==> is_listed(
                stragglers_upto(albums, found, n),
                #[trigger] albums[k],
            ),
        forall|i: int|
            0 <= i < stragglers_upto(albums, found, n).len() ==> is_left(
                albums,
                found,
                n,
                #[trigger] stragglers_upto(albums, found, n)[i],
            ),
    decreases n,
{
    if n > 0 {
        lemma_stragglers(albums, found, n - 1);
        let before = stragglers_upto(albums, found, n - 1);
        let s = stragglers_upto(albums, found, n);
        assert forall|k: int| 0 <= k < n && found[k] == Found::Nothing implies is_listed(s, #[trigger] albums[k]) by {
            if k < n - 1 {
                assert(is_listed(before, albums[k]));
                let i = choose|i: int| 0 <= i < before.len() && straggles(#[trigger] before[i], albums[k]);
                assert(s[i] == before[i]);
            } else {
                assert(straggles(s[before.len() as int], albums[k]));
            }
        }
        assert forall|i: int| 0 <= i < s.len() implies is_left(albums, found, n, #[trigger] s[i]) by {
            if i < before.len() {
                assert(s[i] == before[i]);
                assert(is_left(albums, found, n - 1, before[i]));
                let k = choose|k: int|
                    0 <= k < n - 1 && found[k] == Found::Nothing && straggles(before[i], #[trigger] albums[k]);
                assert(straggles(s[i], albums[k]));
            } else {
                assert(straggles(s[i], albums[n - 1]));
            }
        }
    }
}

/// The albums that are counted as filled are those that got a cover.
pub proof fn law_albums_filled(found: Seq<Found>)
    ensures
        albums_filled_of(found, found.len() as int) == found.filter(|x: Found| x != Found::Nothing).len(),
{
    lemma_albums_filled(found, found.len() as int);
    assert(found.take(found.len() as int) =~= found);
}

proof fn lemma_albums_filled(found: Seq<Found>, n: int)
    requires
        0 <= n <= found.len(),
    ensures
        albums_filled_of(found, n) == found.take(n).filter(|x: Found| x != Found::Nothing).len(),
    decreases n,
{
    reveal(Seq::filter);
    if n > 0 {
        lemma_albums_filled(found, n - 1);
        assert(found.take(n).drop_last() =~= found.take(n - 1));
        assert(found.take(n).last() == found[n - 1]);
    }
}

/// What a pass filled is the sum of the tracks that it filled, album by album.
pub proof fn law_filled_by(found: Seq<Found>, pass: Pass)
    ensures
        filled_by(found, pass, found.len() as int) == total(
            found.map_values(
                |x: Found|
                    match x {
                        Found::From(p, k) if p == pass => k as int,
                        _ => 0,
                    },
            ),
        ),
{
    lemma_filled_by(found, pass, found.len() as int);
    assert(found.take(found.len() as int) =~= found);
}

proof fn lemma_filled_by(found: Seq<Found>, pass: Pass, n: int)
    requires
        0 <= n <= found.len(),
    ensures
        filled_by(found, pass, n) == total(
            found.take(n).map_values(
                |x: Found|
                    match x {
                        Found::From(p, k) if p == pass => k as int,
                        _ => 0,
                    },
            ),
        ),
    decreases n,
{
    let all = found.take(n).map_values(
        |x: Found|
            match x {
                Found::From(p, k) if p == pass => k as int,
                _ => 0,
            },
    );
    if n > 0 {
        lemma_filled_by(found, pass, n - 1);
        assert(all.drop_last() =~= found.take(n - 1).map_values(
            |x: Found|
                match x {
                    Found::From(p, k) if p == pass => k as int,
                    _ => 0,
                },
        ));
        assert(all.last() == (match found[n - 1] {
            Found::From(p, k) if p == pass => k as int,
            _ => 0,
        }));
    }
}

// ---- the online services ---------------------------------------------------------------------

/// Whether the online services are asked at all: not for an album or an artist that is
/// not known.
pub fn can_ask_online(album: &str, artist: &str) -> (r: bool)
    ensures
        r == (!starts_with(album@, "(unknown"@) && !starts_with(artist@, "(unknown"@)),
{
    !begins(album, "(unknown") && !begins(artist, "(unknown")
}

/// An online service that has covers.
#[derive(Clone, Copy, PartialEq, Eq, Structural, Debug)]
pub enum OnlineSource {
    /// MusicBrainz, with the Cover Art Archive.
    MusicBrainz,
    Itunes,
    /// Discogs, which asks for a token.
    Discogs,
}

/// The place of a service in the order in which they are asked.
pub open spec fn source_rank(s: OnlineSource) -> int {
    match s {
        OnlineSource::MusicBrainz => 0,
        OnlineSource::Itunes => 1,
        OnlineSource::Discogs => 2,
    }
}

/// The service that is asked after `tried`, or first of all. Nothing is asked after a hit,
/// and Discogs only with a token.
pub open spec fn source_after(tried: Option<OnlineSource>, found: bool, has_token: bool) -> Option<OnlineSource> {
    if found {
        None
    } else {
        match tried {
            None => Some(OnlineSource::MusicBrainz),
            Some(OnlineSource::MusicBrainz) => Some(OnlineSource::Itunes),
            Some(OnlineSource::Itunes) if has_token => Some(OnlineSource::Discogs),
            _ => None,
        }
    }
}

/// The service that is asked after `tried`, or first of all.
pub fn next_source(tried: Option<OnlineSource>, found: bool, has_token: bool) -> (r: Option<OnlineSource>)
    ensures
        r == source_after(tried, found, has_token),
{
    if found {
        return None;
    }
    match tried {
        None => Some(OnlineSource::MusicBrainz),
        Some(OnlineSource::MusicBrainz) => Some(OnlineSource::Itunes),
        Some(OnlineSource::Itunes) => if has_token {
            Some(OnlineSource::Discogs)
        } else {
            None
        },
        Some(OnlineSource::Discogs) => None,
    }
}

/// The first hit ends the search, a service is asked only after those before it, none is
/// asked twice, and without a token Discogs is not asked.
pub proof fn law_waterfall(tried: Option<OnlineSource>, found: bool, has_token: bool)
    ensures
        found ==> source_after(tried, found, has_token) is None,
        source_after(tried, found, has_token) matches Some(s) ==> source_rank(s) == (match tried {
            Some(t) => source_rank(t) + 1,
            None => 0,
        }),
        source_after(tried, found, has_token) == Some(OnlineSource::Discogs) ==> has_token,
        !found && tried is None ==> source_after(tried, found, has_token) is Some,
        !found && tried == Some(OnlineSource::MusicBrainz) ==> source_after(tried, found, has_token) is Some,
        !found && tried == Some(OnlineSource::Itunes) && has_token ==> source_after(tried, found, has_token) is Some,
{
}

/// How long is waited before a service is asked, in milliseconds. MusicBrainz takes one
/// request a second.
pub fn pause_ms(s: OnlineSource) -> (r: u64)
    ensures
        r == (match s {
            OnlineSource::MusicBrainz => 1100u64,
            OnlineSource::Itunes => 200u64,
            OnlineSource::Discogs => 300u64,
        }),
{
    match s {
        OnlineSource::MusicBrainz => 1100,
        OnlineSource::Itunes => 200,
        OnlineSource::Discogs => 300,
    }
}

/// The query for MusicBrainz.
pub fn musicbrainz_query(album: &str, artist: &str) -> (r: String)
    ensures
        r@ == "release:\""@ + album@ + "\" AND artist:\""@ + artist@ + "\""@,
{
    cat5("release:\"", album, "\" AND artist:\"", artist, "\"")
}

/// The name of the first artist that a release is credited to, or nothing.
pub open spec fn credited(rel: JsonV) -> Seq<char> {
    match list_field(rel, "artist-credit"@) {
        Some(l) if l.len() > 0 => text_or_empty(text_field(l[0], "name"@)),
        _ => seq![],
    }
}

pub open spec fn text_or_empty(s: Option<Seq<char>>) -> Seq<char> {
    match s {
        Some(t) => t,
        None => seq![],
    }
}

/// The addresses of the front images of the releases among the first `n` that agree on
/// album and artist.
pub open spec fn caa_urls(l: Seq<JsonV>, album: Seq<char>, artist: Seq<char>, n: int) -> Seq<Seq<char>>
    decreases n,
{
    if n <= 0 {
        seq![]
    } else {
        let before = caa_urls(l, album, artist, n - 1);
        let rel = l[n - 1];
        match text_field(rel, "id"@) {
            Some(id) if titles_match(album, text_or_empty(text_field(rel, "title"@))) && titles_match(
                artist,
                credited(rel),
            ) => before.push("https://coverartarchive.org/release/"@ + id + "/front-500"@).push(
                "https://coverartarchive.org/release/"@ + id + "/front"@,
            ),
            _ => before,
        }
    }
}

/// The addresses to try for an answer of MusicBrainz.
pub open spec fn musicbrainz_urls(v: Option<JsonV>, album: Seq<char>, artist: Seq<char>) -> Seq<Seq<char>> {
    match v {
        Some(x) => match list_field(x, "releases"@) {
            Some(l) => caa_urls(l, album, artist, l.len() as int),
            None => seq![],
        },
        None => seq![],
    }
}

fn text_of_option(s: Option<&str>) -> (r: String)
    ensures
        r@ == text_or_empty(s.deep_view()),
{
    match s {
        Some(t) => t.to_string(),
        None => String::new(),
    }
}

fn first_credit(rel: &Json) -> (r: String)
    ensures
        r@ == credited(rel.deep_view()),
{
    match rel.list_at("artist-credit") {
        Some(l) => {
            if l.len() > 0 {
                assert(l.deep_view()[0] == l@[0].deep_view());
                text_of_option(l[0].text_at("name"))
            } else {
                String::new()
            }
        },
        None => String::new(),
    }
}

/// The addresses to try for an answer of MusicBrainz.
pub fn pick_musicbrainz(v: &Json, album: &str, artist: &str) -> (r: Vec<String>)
    ensures
        r.deep_view() == musicbrainz_urls(Some(v.deep_view()), album@, artist@),
{
    let mut out: Vec<String> = Vec::new();
    assert(out.deep_view() =~= seq![]);
    if let Some(l) = v.list_at("releases") {
        let ghost lv = l.deep_view();
        let mut i: usize = 0;
        while i < l.len()
            invariant
                i <= l@.len(),
                lv == l.deep_view(),
                out.deep_view() == caa_urls(lv, album@, artist@, i as int),
            decreases l@.len() - i,
        {
            let ghost before = out.deep_view();
            let rel = &l[i];
            assert(lv[i as int] == rel.deep_view());
            if let Some(id) = rel.text_at("id") {
                let title = text_of_option(rel.text_at("title"));
                let who = first_credit(rel);
                if matches(album, title.as_str()) && matches(artist, who.as_str()) {
                    out.push(cat3("https://coverartarchive.org/release/", id, "/front-500"));
                    out.push(cat3("https://coverartarchive.org/release/", id, "/front"));
                    assert(out.deep_view() =~= before.push("https://coverartarchive.org/release/"@ + id@ + "/front-500"@).push(
                        "https://coverartarchive.org/release/"@ + id@ + "/front"@,
                    ));
                }
            }
            i += 1;
        }
    }
    out
}

/// The addresses to try for an answer of MusicBrainz with this body.
pub fn musicbrainz_candidates(body: &str, album: &str, artist: &str) -> (r: Vec<String>)
    ensures
        r.deep_view() == musicbrainz_urls(json_value(body@), album@, artist@),
{
    match parse(body) {
        Some(v) => pick_musicbrainz(&v, album, artist),
        None => no_texts(),
    }
}

fn no_texts() -> (r: Vec<String>)
    ensures
        r.deep_view() == Seq::<Seq<char>>::empty(),
{
    let v: Vec<String> = Vec::new();
    assert(v.deep_view() =~= seq![]);
    v
}

/// The addresses of the artwork of the albums among the first `n` that agree on album
/// and artist, in the large size.
pub open spec fn artwork_urls(l: Seq<JsonV>, album: Seq<char>, artist: Seq<char>, n: int) -> Seq<Seq<char>>
    decreases n,
{
    if n <= 0 {
        seq![]
    } else {
        let before = artwork_urls(l, album, artist, n - 1);
        let r = l[n - 1];
        match text_field(r, "artworkUrl100"@) {
            Some(art) if titles_match(album, text_or_empty(text_field(r, "collectionName"@))) && titles_match(
                artist,
                text_or_empty(text_field(r, "artistName"@)),
            ) => before.push(replaced_from(art, "100x100bb"@, "1400x1400bb"@, 0)),
            _ => before,
        }
    }
}

/// The addresses to try for an answer of iTunes.
pub open spec fn itunes_urls(v: Option<JsonV>, album: Seq<char>, artist: Seq<char>) -> Seq<Seq<char>> {
    match v {
        Some(x) => match list_field(x, "results"@) {
            Some(l) => artwork_urls(l, album, artist, l.len() as int),
            None => seq![],
        },
        None => seq![],
    }
}

/// The addresses to try for an answer of iTunes.
pub fn pick_itunes(v: &Json, album: &str, artist: &str) -> (r: Vec<String>)
    ensures
        r.deep_view() == itunes_urls(Some(v.deep_view()), album@, artist@),
{
    proof {
        reveal_strlit("100x100bb");
    }
    let mut out: Vec<String> = Vec::new();
    assert(out.deep_view() =~= seq![]);
    if let Some(l) = v.list_at("results") {
        let ghost lv = l.deep_view();
        let mut i: usize = 0;
        while i < l.len()
            invariant
                i <= l@.len(),
                lv == l.deep_view(),
                "100x100bb"@.len() > 0,
                out.deep_view() == artwork_urls(lv, album@, artist@, i as int),
            decreases l@.len() - i,
        {
            let ghost before = out.deep_view();
            let r = &l[i];
            assert(lv[i as int] == r.deep_view());
            if let Some(art) = r.text_at("artworkUrl100") {
                let title = text_of_option(r.text_at("collectionName"));
                let who = text_of_option(r.text_at("artistName"));
                if matches(album, title.as_str()) && matches(artist, who.as_str()) {
                    let url = replace_text(art, "100x100bb", "1400x1400bb");
                    let ghost uv = url@;
                    out.push(url);
                    assert(out.deep_view() =~= before.push(uv));
                }
            }
            i += 1;
        }
    }
    out
}

/// The addresses to try for an answer of iTunes with this body.
pub fn itunes_candidates(body: &str, album: &str, artist: &str) -> (r: Vec<String>)
    ensures
        r.deep_view() == itunes_urls(json_value(body@), album@, artist@),
{
    match parse(body) {
        Some(v) => pick_itunes(&v, album, artist),
        None => no_texts(),
    }
}

/// A Discogs title is an artist, a dash between blanks and an album: both agree.
pub open spec fn discogs_match(title: Seq<char>, album: Seq<char>, artist: Seq<char>) -> bool {
    match find_from(title, " - "@, 0) {
        Some(k) => titles_match(artist, title.take(k)) && titles_match(album, title.skip(k + 3)),
        None => false,
    }
}

/// Whether a Discogs title names this artist and this album.
fn names_both(title: &str, album: &str, artist: &str) -> (r: bool)
    ensures
        r == discogs_match(title@, album@, artist@),
{
    let c = chars_of(title);
    let dash = chars_of(" - ");
    proof {
        reveal_strlit(" - ");
        lemma_find_from(title@, " - "@, 0);
    }
    match find_chars(&c, &dash, 0) {
        Some(k) => {
            let n: usize = c.len();
            let who = text_of(&c, 0, k);
            let what = text_of(&c, k + 3, n);
            proof {
                assert(who@ =~= title@.take(k as int));
                assert(what@ =~= title@.skip(k + 3));
            }
            matches(artist, who.as_str()) && matches(album, what.as_str())
        },
        None => false,
    }
}

/// The addresses of the images of the releases among the first `n` that agree on album
/// and artist.
pub open spec fn discogs_images(l: Seq<JsonV>, album: Seq<char>, artist: Seq<char>, n: int) -> Seq<Seq<char>>
    decreases n,
{
    if n <= 0 {
        seq![]
    } else {
        let before = discogs_images(l, album, artist, n - 1);
        match text_field(l[n - 1], "cover_image"@) {
            Some(img) if discogs_match(text_or_empty(text_field(l[n - 1], "title"@)), album, artist) => before.push(img),
            _ => before,
        }
    }
}

/// The addresses to try for an answer of Discogs.
pub open spec fn discogs_urls(v: Option<JsonV>, album: Seq<char>, artist: Seq<char>) -> Seq<Seq<char>> {
    match v {
        Some(x) => match list_field(x, "results"@) {
            Some(l) => discogs_images(l, album, artist, l.len() as int),
            None => seq![],
        },
        None => seq![],
    }
}

/// The addresses to try for an answer of Discogs.
pub fn pick_discogs(v: &Json, album: &str, artist: &str) -> (r: Vec<String>)
    ensures
        r.deep_view() == discogs_urls(Some(v.deep_view()), album@, artist@),
{
    let mut out: Vec<String> = Vec::new();
    assert(out.deep_view() =~= seq![]);
    if let Some(l) = v.list_at("results") {
        let ghost lv = l.deep_view();
        let mut i: usize = 0;
        while i < l.len()
            invariant
                i <= l@.len(),
                lv == l.deep_view(),
                out.deep_view() == discogs_images(lv, album@, artist@, i as int),
            decreases l@.len() - i,
        {
            let ghost before = out.deep_view();
            let r = &l[i];
            assert(lv[i as int] == r.deep_view());
            if let Some(img) = r.text_at("cover_image") {
                let title = text_of_option(r.text_at("title"));
                if names_both(title.as_str(), album, artist) {
                    out.push(img.to_string());
                    assert(out.deep_view() =~= before.push(img@));
                }
            }
            i += 1;
        }
    }
    out
}

/// The addresses to try for an answer of Discogs with this body.
pub fn discogs_candidates(body: &str, album: &str, artist: &str) -> (r: Vec<String>)
    ensures
        r.deep_view() == discogs_urls(json_value(body@), album@, artist@),
{
    match parse(body) {
        Some(v) => pick_discogs(&v, album, artist),
        None => no_texts(),
    }
}

/// An address of a front image of this release, which agrees on album and artist.
pub open spec fn front_of(rel: JsonV, album: Seq<char>, artist: Seq<char>, url: Seq<char>) -> bool {
    &&& titles_match(album, text_or_empty(text_field(rel, "title"@)))
    &&& titles_match(artist, credited(rel))
    &&& text_field(rel, "id"@) matches Some(id) && (url == "https://coverartarchive.org/release/"@ + id + "/front-500"@
        || url == "https://coverartarchive.org/release/"@ + id + "/front"@)
}

/// The address of the artwork of this album, which agrees on album and artist.
pub open spec fn artwork_of(r: JsonV, album: Seq<char>, artist: Seq<char>, url: Seq<char>) -> bool {
    &&& titles_match(album, text_or_empty(text_field(r, "collectionName"@)))
    &&& titles_match(artist, text_or_empty(text_field(r, "artistName"@)))
    &&& text_field(r, "artworkUrl100"@) matches Some(art) && url == replaced_from(art, "100x100bb"@, "1400x1400bb"@, 0)
}

/// The address of the image of this release, which agrees on album and artist.
pub open spec fn image_of(r: JsonV, album: Seq<char>, artist: Seq<char>, url: Seq<char>) -> bool {
    &&& discogs_match(text_or_empty(text_field(r, "title"@)), album, artist)
    &&& text_field(r, "cover_image"@) == Some(url)
}

/// No address comes from a release whose album or artist disagrees: each one is that of an
/// entry of the answer that agrees on both.
pub proof fn law_online_gate(v: JsonV, album: Seq<char>, artist: Seq<char>, k: int)
    ensures
        0 <= k < musicbrainz_urls(Some(v), album, artist).len() ==> exists|i: int|
            0 <= i < list_field(v, "releases"@)->0.len() && #[trigger] front_of(
                list_field(v, "releases"@)->0[i],
                album,
                artist,
                musicbrainz_urls(Some(v), album, artist)[k],
            ),
        0 <= k < itunes_urls(Some(v), album, artist).len() ==> exists|i: int|
            0 <= i < list_field(v, "results"@)->0.len() && #[trigger] artwork_of(
                list_field(v, "results"@)->0[i],
                album,
                artist,
                itunes_urls(Some(v), album, artist)[k],
            ),
        0 <= k < discogs_urls(Some(v), album, artist).len() ==> exists|i: int|
            0 <= i < list_field(v, "results"@)->0.len() && #[trigger] image_of(
                list_field(v, "results"@)->0[i],
                album,
                artist,
                discogs_urls(Some(v), album, artist)[k],
            ),
{
    if let Some(l) = list_field(v, "releases"@) {
        lemma_front_of(l, album, artist, l.len() as int, k);
    }
    if let Some(l) = list_field(v, "results"@) {
        lemma_artwork_of(l, album, artist, l.len() as int, k);
        lemma_image_of(l, album, artist, l.len() as int, k);
    }
}

proof fn lemma_front_of(l: Seq<JsonV>, album: Seq<char>, artist: Seq<char>, n: int, k: int)
    requires
        n <= l.len(),
    ensures
        0 <= k < caa_urls(l, album, artist, n).len() ==> exists|i: int|
            0 <= i < n && #[trigger] front_of(l[i], album, artist, caa_urls(l, album, artist, n)[k]),
    decreases n,
{
    if n > 0 {
        lemma_front_of(l, album, artist, n - 1, k);
        let u = caa_urls(l, album, artist, n);
        if 0 <= k < u.len() {
            if k < caa_urls(l, album, artist, n - 1).len() {
                let i = choose|i: int|
                    0 <= i < n - 1 && #[trigger] front_of(l[i], album, artist, caa_urls(l, album, artist, n - 1)[k]);
                assert(front_of(l[i], album, artist, u[k]));
            } else {
                assert(front_of(l[n - 1], album, artist, u[k]));
            }
        }
    }
}

proof fn lemma_artwork_of(l: Seq<JsonV>, album: Seq<char>, artist: Seq<char>, n: int, k: int)
    requires
        n <= l.len(),
    ensures
        0 <= k < artwork_urls(l, album, artist, n).len() ==> exists|i: int|
            0 <= i < n && #[trigger] artwork_of(l[i], album, artist, artwork_urls(l, album, artist, n)[k]),
    decreases n,
{
    if n > 0 {
        lemma_artwork_of(l, album, artist, n - 1, k);
        let u = artwork_urls(l, album, artist, n);
        if 0 <= k < u.len() {
            if k < artwork_urls(l, album, artist, n - 1).len() {
                let i = choose|i: int|
                    0 <= i < n - 1 && #[trigger] artwork_of(l[i], album, artist, artwork_urls(l, album, artist, n - 1)[k]);
                assert(artwork_of(l[i], album, artist, u[k]));
            } else {
                assert(artwork_of(l[n - 1], album, artist, u[k]));
            }
        }
    }
}

proof fn lemma_image_of(l: Seq<JsonV>, album: Seq<char>, artist: Seq<char>, n: int, k: int)
    requires
        n <= l.len(),
    ensures
        0 <= k < discogs_images(l, album, artist, n).len() ==> exists|i: int|
            0 <= i < n && #[trigger] image_of(l[i], album, artist, discogs_images(l, album, artist, n)[k]),
    decreases n,
{
    if n > 0 {
        lemma_image_of(l, album, artist, n - 1, k);
        let u = discogs_images(l, album, artist, n);
        if 0 <= k < u.len() {
            if k < discogs_images(l, album, artist, n - 1).len() {
                let i = choose|i: int|
                    0 <= i < n - 1 && #[trigger] image_of(l[i], album, artist, discogs_images(l, album, artist, n - 1)[k]);
                assert(image_of(l[i], album, artist, u[k]));
            } else {
                assert(image_of(l[n - 1], album, artist, u[k]));
            }
        }
    }
}

/// For an album or an artist with nothing to compare there is no address at all.
pub proof fn law_nameless_is_never_found(v: JsonV, album: Seq<char>, artist: Seq<char>)
    requires
        album_key(album).len() == 0 || album_key(artist).len() == 0,
    ensures
        musicbrainz_urls(Some(v), album, artist).len() == 0,
        itunes_urls(Some(v), album, artist).len() == 0,
        discogs_urls(Some(v), album, artist).len() == 0,
{
    if let Some(l) = list_field(v, "releases"@) {
        lemma_gate_closed(l, album, artist, l.len() as int);
    }
    if let Some(l) = list_field(v, "results"@) {
        lemma_gate_closed(l, album, artist, l.len() as int);
    }
}

proof fn lemma_gate_closed(l: Seq<JsonV>, album: Seq<char>, artist: Seq<char>, n: int)
    requires
        album_key(album).len() == 0 || album_key(artist).len() == 0,
    ensures
        caa_urls(l, album, artist, n).len() == 0,
        artwork_urls(l, album, artist, n).len() == 0,
        discogs_images(l, album, artist, n).len() == 0,
    decreases n,
{
    if n > 0 {
        lemma_gate_closed(l, album, artist, n - 1);
    }
}

/// Two titles agree exactly where there is something to compare of both and it is the same.
pub proof fn law_titles_match(a: Seq<char>, b: Seq<char>)
    ensures
        titles_match(a, b) <==> album_key(a) == album_key(b) && album_key(a).len() > 0 && album_key(b).len() > 0,
        titles_match(a, b) == titles_match(b, a),
{
}

/// What is compared of a text that is there.
pub open spec fn keyed(s: Option<Seq<char>>) -> Option<Seq<char>> {
    match s {
        Some(t) => Some(album_key(t)),
        None => None,
    }
}

/// The name of the first entry of a list.
pub open spec fn first_name(v: JsonV, key: Seq<char>) -> Option<Seq<char>> {
    match list_field(v, key) {
        Some(l) if l.len() > 0 => text_field(l[0], "name"@),
        _ => None,
    }
}

/// The addresses for a list of releases are those of its entries, in the order of the entries: two of
/// each that has an id and agrees on album and artist, the smaller image first, and none of another.
pub proof fn law_caa_urls(l: Seq<JsonV>, album: Seq<char>, artist: Seq<char>)
    ensures
        caa_urls(l, album, artist, l.len() as int) == l.map_values(|x: JsonV| match text_field(x, "id"@) {
                Some(id) if album_key(album).len() > 0 && album_key(artist).len() > 0 && Some(album_key(album)) == keyed(
                    text_field(x, "title"@),
                ) && Some(album_key(artist)) == keyed(first_name(x, "artist-credit"@)) => seq![
                    "https://coverartarchive.org/release/"@ + id + "/front-500"@,
                    "https://coverartarchive.org/release/"@ + id + "/front"@,
                ],
                _ => seq![],
            }).flatten(),
{
    lemma_caa_urls(l, album, artist, l.len() as int);
    assert(l.take(l.len() as int) =~= l);
}

proof fn lemma_caa_urls(l: Seq<JsonV>, album: Seq<char>, artist: Seq<char>, n: int)
    requires
        0 <= n <= l.len(),
    ensures
        caa_urls(l, album, artist, n) == l.take(n).map_values(|x: JsonV| match text_field(x, "id"@) {
                Some(id) if album_key(album).len() > 0 && album_key(artist).len() > 0 && Some(album_key(album)) == keyed(
                    text_field(x, "title"@),
                ) && Some(album_key(artist)) == keyed(first_name(x, "artist-credit"@)) => seq![
                    "https://coverartarchive.org/release/"@ + id + "/front-500"@,
                    "https://coverartarchive.org/release/"@ + id + "/front"@,
                ],
                _ => seq![],
            }).flatten(),
    decreases n,
{
    let all = l.take(n).map_values(|x: JsonV| match text_field(x, "id"@) {
                Some(id) if album_key(album).len() > 0 && album_key(artist).len() > 0 && Some(album_key(album)) == keyed(
                    text_field(x, "title"@),
                ) && Some(album_key(artist)) == keyed(first_name(x, "artist-credit"@)) => seq![
                    "https://coverartarchive.org/release/"@ + id + "/front-500"@,
                    "https://coverartarchive.org/release/"@ + id + "/front"@,
                ],
                _ => seq![],
            });
    if n > 0 {
        lemma_caa_urls(l, album, artist, n - 1);
        let before = l.take(n - 1).map_values(|x: JsonV| match text_field(x, "id"@) {
                Some(id) if album_key(album).len() > 0 && album_key(artist).len() > 0 && Some(album_key(album)) == keyed(
                    text_field(x, "title"@),
                ) && Some(album_key(artist)) == keyed(first_name(x, "artist-credit"@)) => seq![
                    "https://coverartarchive.org/release/"@ + id + "/front-500"@,
                    "https://coverartarchive.org/release/"@ + id + "/front"@,
                ],
                _ => seq![],
            });
        assert(all =~= before.push(all[n - 1]));
        assert(l.take(n)[n - 1] == l[n - 1]);
        lemma_flatten_push(before, all[n - 1]);
        assert(album_key(seq![]) =~= seq![]);
        assert(caa_urls(l, album, artist, n) =~= before.flatten() + all[n - 1]);
    } else {
        assert(all =~= seq![]);
        assert(all.flatten() =~= seq![]);
    }
}

/// The addresses for a list of albums are those of its entries, in the order of the entries: the
/// artwork of each that has one and agrees on album and artist, in the large size, and none of another.
pub proof fn law_artwork_urls(l: Seq<JsonV>, album: Seq<char>, artist: Seq<char>)
    ensures
        artwork_urls(l, album, artist, l.len() as int) == l.map_values(|x: JsonV| match text_field(x, "artworkUrl100"@) {
                Some(art) if album_key(album).len() > 0 && album_key(artist).len() > 0 && Some(album_key(album)) == keyed(
                    text_field(x, "collectionName"@),
                ) && Some(album_key(artist)) == keyed(text_field(x, "artistName"@)) => seq![
                    replaced_from(art, "100x100bb"@, "1400x1400bb"@, 0),
                ],
                _ => seq![],
            }).flatten(),
{
    lemma_artwork_urls(l, album, artist, l.len() as int);
    assert(l.take(l.len() as int) =~= l);
}

proof fn lemma_artwork_urls(l: Seq<JsonV>, album: Seq<char>, artist: Seq<char>, n: int)
    requires
        0 <= n <= l.len(),
    ensures
        artwork_urls(l, album, artist, n) == l.take(n).map_values(|x: JsonV| match text_field(x, "artworkUrl100"@) {
                Some(art) if album_key(album).len() > 0 && album_key(artist).len() > 0 && Some(album_key(album)) == keyed(
                    text_field(x, "collectionName"@),
                ) && Some(album_key(artist)) == keyed(text_field(x, "artistName"@)) => seq![
                    replaced_from(art, "100x100bb"@, "1400x1400bb"@, 0),
                ],
                _ => seq![],
            }).flatten(),
    decreases n,
{
    let all = l.take(n).map_values(|x: JsonV| match text_field(x, "artworkUrl100"@) {
                Some(art) if album_key(album).len() > 0 && album_key(artist).len() > 0 && Some(album_key(album)) == keyed(
                    text_field(x, "collectionName"@),
                ) && Some(album_key(artist)) == keyed(text_field(x, "artistName"@)) => seq![
                    replaced_from(art, "100x100bb"@, "1400x1400bb"@, 0),
                ],
                _ => seq![],
            });
    if n > 0 {
        lemma_artwork_urls(l, album, artist, n - 1);
        let before = l.take(n - 1).map_values(|x: JsonV| match text_field(x, "artworkUrl100"@) {
                Some(art) if album_key(album).len() > 0 && album_key(artist).len() > 0 && Some(album_key(album)) == keyed(
                    text_field(x, "collectionName"@),
                ) && Some(album_key(artist)) == keyed(text_field(x, "artistName"@)) => seq![
                    replaced_from(art, "100x100bb"@, "1400x1400bb"@, 0),
                ],
                _ => seq![],
            });
        assert(all =~= before.push(all[n - 1]));
        assert(l.take(n)[n - 1] == l[n - 1]);
        lemma_flatten_push(before, all[n - 1]);
        assert(album_key(seq![]) =~= seq![]);
        assert(artwork_urls(l, album, artist, n) =~= before.flatten() + all[n - 1]);
    } else {
        assert(all =~= seq![]);
        assert(all.flatten() =~= seq![]);
    }
}

/// A title is an artist and an album with a dash between blanks between them, the first one in
/// it, and both agree.
pub open spec fn says_both(title: Seq<char>, album: Seq<char>, artist: Seq<char>) -> bool {
    exists|who: Seq<char>, what: Seq<char>|
        {
            &&& title == #[trigger] (who + " - "@ + what)
            &&& forall|k: int| 0 <= k < who.len() ==> !matches_at(title, " - "@, k)
            &&& album_key(artist).len() > 0 && album_key(artist) == album_key(who)
            &&& album_key(album).len() > 0 && album_key(album) == album_key(what)
        }
}

proof fn lemma_says_both(title: Seq<char>, album: Seq<char>, artist: Seq<char>)
    ensures
        says_both(title, album, artist) == discogs_match(title, album, artist),
{
    reveal_strlit(" - ");
    let dash = " - "@;
    lemma_find_from(title, dash, 0);
    if discogs_match(title, album, artist) {
        let k = find_from(title, dash, 0)->0;
        let who = title.take(k);
        let what = title.skip(k + 3);
        assert(title =~= who + dash + what);
    }
    if says_both(title, album, artist) {
        let (who, what) = choose|who: Seq<char>, what: Seq<char>|
            {
                &&& title == #[trigger] (who + dash + what)
                &&& forall|k: int| 0 <= k < who.len() ==> !matches_at(title, dash, k)
                &&& album_key(artist).len() > 0 && album_key(artist) == album_key(who)
                &&& album_key(album).len() > 0 && album_key(album) == album_key(what)
            };
        let n = who.len() as int;
        assert(title.subrange(n, n + 3) =~= dash);
        assert(matches_at(title, dash, n));
        assert(title.take(n) =~= who);
        assert(title.skip(n + 3) =~= what);
    }
}

/// The addresses for a list of releases are those of its entries, in the order of the entries: the
/// image of each that has one and whose title names artist and album, and none of another.
pub proof fn law_discogs_images(l: Seq<JsonV>, album: Seq<char>, artist: Seq<char>)
    ensures
        discogs_images(l, album, artist, l.len() as int) == l.map_values(|x: JsonV| match (text_field(x, "cover_image"@), text_field(x, "title"@)) {
                (Some(img), Some(t)) if says_both(t, album, artist) => seq![img],
                _ => seq![],
            }).flatten(),
{
    lemma_discogs_images(l, album, artist, l.len() as int);
    assert(l.take(l.len() as int) =~= l);
}

proof fn lemma_discogs_images(l: Seq<JsonV>, album: Seq<char>, artist: Seq<char>, n: int)
    requires
        0 <= n <= l.len(),
    ensures
        discogs_images(l, album, artist, n) == l.take(n).map_values(|x: JsonV| match (text_field(x, "cover_image"@), text_field(x, "title"@)) {
                (Some(img), Some(t)) if says_both(t, album, artist) => seq![img],
                _ => seq![],
            }).flatten(),
    decreases n,
{
    let all = l.take(n).map_values(|x: JsonV| match (text_field(x, "cover_image"@), text_field(x, "title"@)) {
                (Some(img), Some(t)) if says_both(t, album, artist) => seq![img],
                _ => seq![],
            });
    if n > 0 {
        lemma_discogs_images(l, album, artist, n - 1);
        let before = l.take(n - 1).map_values(|x: JsonV| match (text_field(x, "cover_image"@), text_field(x, "title"@)) {
                (Some(img), Some(t)) if says_both(t, album, artist) => seq![img],
                _ => seq![],
            });
        assert(all =~= before.push(all[n - 1]));
        assert(l.take(n)[n - 1] == l[n - 1]);
        lemma_flatten_push(before, all[n - 1]);
        lemma_says_both(text_or_empty(text_field(l[n - 1], "title"@)), album, artist);
        assert(album_key(seq![]) =~= seq![]);
        assert(discogs_images(l, album, artist, n) =~= before.flatten() + all[n - 1]);
    } else {
        assert(all =~= seq![]);
        assert(all.flatten() =~= seq![]);
    }
}

/// No entry that agrees is passed over, wherever in the answer it stands: both addresses of its
/// front image are among the candidates, the smaller image directly before the larger.
pub proof fn law_front_tried(v: JsonV, l: Seq<JsonV>, album: Seq<char>, artist: Seq<char>, k: int, id: Seq<char>)
    requires
        list_field(v, "releases"@) == Some(l),
        0 <= k < l.len(),
        text_field(l[k], "id"@) == Some(id),
        album_key(album).len() > 0,
        album_key(artist).len() > 0,
        keyed(text_field(l[k], "title"@)) == Some(album_key(album)),
        keyed(first_name(l[k], "artist-credit"@)) == Some(album_key(artist)),
    ensures
        exists|p: int|
            0 <= p && p + 1 < musicbrainz_urls(Some(v), album, artist).len() && #[trigger] musicbrainz_urls(
                Some(v),
                album,
                artist,
            )[p] == "https://coverartarchive.org/release/"@ + id + "/front-500"@ && musicbrainz_urls(Some(v), album, artist)[p
                + 1] == "https://coverartarchive.org/release/"@ + id + "/front"@,
        musicbrainz_urls(Some(v), album, artist) == musicbrainz_urls_of(l.take(k), album, artist) + seq![
            "https://coverartarchive.org/release/"@ + id + "/front-500"@,
            "https://coverartarchive.org/release/"@ + id + "/front"@,
        ] + musicbrainz_urls_of(l.skip(k + 1), album, artist),
{
    let own = seq![
        "https://coverartarchive.org/release/"@ + id + "/front-500"@,
        "https://coverartarchive.org/release/"@ + id + "/front"@,
    ];
    lemma_caa_split(l, album, artist, k, l.len() as int);
    let u = musicbrainz_urls(Some(v), album, artist);
    let a = musicbrainz_urls_of(l.take(k), album, artist);
    let one = caa_urls(seq![l[k]], album, artist, 1);
    reveal_with_fuel(caa_urls, 2);
    assert(one =~= own);
    assert(u =~= a + own + musicbrainz_urls_of(l.skip(k + 1), album, artist));
    let p = a.len() as int;
    assert(u[p] == own[0] && u[p + 1] == own[1]);
}

/// The addresses to try for a list of releases.
pub open spec fn musicbrainz_urls_of(l: Seq<JsonV>, album: Seq<char>, artist: Seq<char>) -> Seq<Seq<char>> {
    musicbrainz_urls(
        Some(JsonV::Object(seq![MemberV { key: "releases"@, value: JsonV::List(l) }])),
        album,
        artist,
    )
}

proof fn lemma_releases(l: Seq<JsonV>, album: Seq<char>, artist: Seq<char>)
    ensures
        musicbrainz_urls_of(l, album, artist) == caa_urls(l, album, artist, l.len() as int),
{
    let ms = seq![MemberV { key: "releases"@, value: JsonV::List(l) }];
    assert(ms[0].key == "releases"@);
}

proof fn lemma_caa_split(l: Seq<JsonV>, album: Seq<char>, artist: Seq<char>, k: int, n: int)
    requires
        0 <= k < n <= l.len(),
    ensures
        caa_urls(l, album, artist, n) == musicbrainz_urls_of(l.take(k), album, artist) + caa_urls(
            seq![l[k]],
            album,
            artist,
            1,
        ) + musicbrainz_urls_of(l.take(n).skip(k + 1), album, artist),
        n == l.len() ==> l.take(n).skip(k + 1) == l.skip(k + 1),
    decreases n,
{
    let a = l.take(k);
    let b = l.take(n).skip(k + 1);
    lemma_releases(a, album, artist);
    lemma_releases(b, album, artist);
    if n == l.len() {
        assert(l.take(n) =~= l);
    }
    if n == k + 1 {
        reveal_with_fuel(caa_urls, 2);
        assert(b =~= seq![]);
        lemma_caa_front(a, seq![l[k]] + l.skip(k + 1), album, artist, k);
        assert(a + (seq![l[k]] + l.skip(k + 1)) =~= l);
        assert(caa_urls(l, album, artist, n) =~= caa_urls(a, album, artist, k) + caa_urls(seq![l[k]], album, artist, 1) + seq![]);
    } else {
        lemma_caa_split(l, album, artist, k, n - 1);
        let c = l.take(n - 1).skip(k + 1);
        lemma_releases(c, album, artist);
        assert(b =~= c + seq![l[n - 1]]);
        lemma_caa_front(c, seq![l[n - 1]], album, artist, c.len() as int);
        assert(b[b.len() - 1] == l[n - 1]);
        assert(caa_urls(l, album, artist, n) =~= caa_urls(a, album, artist, k) + caa_urls(seq![l[k]], album, artist, 1) + caa_urls(
            b,
            album,
            artist,
            b.len() as int,
        ));
    }
}

proof fn lemma_caa_front(a: Seq<JsonV>, b: Seq<JsonV>, album: Seq<char>, artist: Seq<char>, n: int)
    requires
        0 <= n <= a.len(),
    ensures
        caa_urls(a + b, album, artist, n) == caa_urls(a, album, artist, n),
    decreases n,
{
    if n > 0 {
        lemma_caa_front(a, b, album, artist, n - 1);
        assert((a + b)[n - 1] == a[n - 1]);
    }
}

/// What is tried is what the list of the answer gives, and nothing without such a list.
pub proof fn law_candidates(v: Option<JsonV>, album: Seq<char>, artist: Seq<char>)
    ensures
        match v {
            Some(x) => {
                &&& musicbrainz_urls(v, album, artist) == (match list_field(x, "releases"@) {
                    Some(l) => caa_urls(l, album, artist, l.len() as int),
                    None => seq![],
                })
                &&& itunes_urls(v, album, artist) == (match list_field(x, "results"@) {
                    Some(l) => artwork_urls(l, album, artist, l.len() as int),
                    None => seq![],
                })
                &&& discogs_urls(v, album, artist) == (match list_field(x, "results"@) {
                    Some(l) => discogs_images(l, album, artist, l.len() as int),
                    None => seq![],
                })
            },
            None => musicbrainz_urls(v, album, artist).len() == 0 && itunes_urls(v, album, artist).len() == 0
                && discogs_urls(v, album, artist).len() == 0,
        },
{
}

// ---- a pasted address ------------------------------------------------------------------------

/// Whether an address leads to a page whose image has to be found first.
pub fn needs_page(url: &str) -> (r: bool)
    ensures
        r == contains_text(url@, "spotify.com"@),
{
    contains(url, "spotify.com")
}

/// What stands behind `content=` after the first `og:image`, between two equal quotes.
pub open spec fn og_image(html: Seq<char>) -> Option<Seq<char>> {
    match find_from(html, "og:image"@, 0) {
        None => None,
        Some(i) => match find_from(html, "content="@, i) {
            None => None,
            Some(c) => {
                let q = c + 8;
                if q >= html.len() {
                    None
                } else {
                    let end = first_of(html, seq![html[q]], q + 1);
                    if end < html.len() {
                        Some(html.subrange(q + 1, end))
                    } else {
                        None
                    }
                }
            },
        },
    }
}

/// The address of the image that a page names for itself.
pub fn extract_og_image(html: &str) -> (r: Option<String>)
    ensures
        r.deep_view() == og_image(html@),
{
    proof {
        reveal_strlit("content=");
        reveal_strlit("og:image");
    }
    let c = chars_of(html);
    let i = match find_chars(&c, &chars_of("og:image"), 0) {
        Some(i) => i,
        None => return None,
    };
    let at = match find_chars(&c, &chars_of("content="), i) {
        Some(at) => at,
        None => return None,
    };
    proof {
        lemma_find_from(html@, "content="@, i as int);
    }
    let n: usize = c.len();
    let q: usize = at + 8;
    if q >= n {
        return None;
    }
    let quote: [char; 1] = [c[q]];
    assert(quote@ =~= seq![html@[q as int]]);
    let end = first_of_chars(&c, &quote, q + 1);
    if end < n {
        Some(text_of(&c, q + 1, end))
    } else {
        None
    }
}

/// The address that a page names for its image is what stands between two equal quotes behind
/// the first `content=` that follows the first `og:image`; there is none where one of these is
/// missing.
pub proof fn law_og_image(html: Seq<char>)
    ensures
        og_image(html) matches Some(u) ==> exists|i: int, c: int|
            {
                &&& first_at(html, "og:image"@, 0, i) && #[trigger] first_at(html, "content="@, i, c)
                &&& c + 8 < html.len() && c + 9 + u.len() < html.len()
                &&& html.subrange(c + 9, c + 9 + u.len()) == u
                &&& html[c + 9 + u.len()] == html[c + 8]
                &&& forall|k: int| 0 <= k < u.len() ==> #[trigger] u[k] != html[c + 8]
            },
        og_image(html) is None ==> forall|i: int, c: int, e: int|
            first_at(html, "og:image"@, 0, i) && first_at(html, "content="@, i, c) && c + 8 < e < html.len()
                ==> #[trigger] first_at(html, "content="@, i, c) && #[trigger] html[e] != html[c + 8],
{
    lemma_find_from(html, "og:image"@, 0);
    if let Some(i) = find_from(html, "og:image"@, 0) {
        lemma_find_from(html, "content="@, i);
        assert(first_at(html, "og:image"@, 0, i));
        if let Some(c) = find_from(html, "content="@, i) {
            assert(first_at(html, "content="@, i, c));
            let q = c + 8;
            if q < html.len() {
                let quote = seq![html[q]];
                assert(quote[0] == html[q]);
                lemma_first_of(html, quote, q + 1);
                let end = first_of(html, quote, q + 1);
                if end < html.len() {
                    let u = html.subrange(q + 1, end);
                    assert(quote.contains(html[end]));
                    assert forall|k: int| 0 <= k < u.len() implies #[trigger] u[k] != html[q] by {
                        assert(!quote.contains(html[q + 1 + k]));
                    }
                } else {
                    assert forall|e: int| q < e < html.len() implies #[trigger] html[e] != html[q] by {
                        assert(!quote.contains(html[e]));
                    }
                }
            }
        }
    }
}

/// The first place from `from` on where `pat` stands is `i`.
pub open spec fn first_at(s: Seq<char>, pat: Seq<char>, from: int, i: int) -> bool {
    from <= i && matches_at(s, pat, i) && forall|j: int| from <= j < i ==> !matches_at(s, pat, j)
}

/// A cover is embedded as it stands, or as a front cover in JPEG without a description, whose bytes
/// are the cut that was asked for: from the middle, as large as its shorter side. One that is too
/// small on a side is not embedded.
pub proof fn law_squared(pic: PictureV, min_dim: u32)
    ensures
        image_size(pic.data) is None ==> squared(pic, min_dim) is None,
        image_size(pic.data) matches Some((w, h)) ==> {
            &&& w < min_dim || h < min_dim ==> squared(pic, min_dim) is None
            &&& w >= min_dim && w == h ==> squared(pic, min_dim) == Some(pic)
            &&& w >= min_dim && h >= min_dim && w != h ==> match squared(pic, min_dim) {
                Some(r) => {
                    let side = if w < h {
                        w
                    } else {
                        h
                    };
                    &&& r.kind == FRONT_COVER && r.mime == Some(JPEG@) && r.description is None
                    &&& jpeg_crop(pic.data, ((w - side) / 2) as u32, ((h - side) / 2) as u32, side) == Some(r.data)
                },
                None => true,
            }
        },
{
}

} // verus!
