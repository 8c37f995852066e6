//! Tags: what a file's tags say, and every change that is made to them.
//!
//! A [`Tag`] holds what the changes read and write; all other items of a file's tag
//! stay where they are.
use vstd::prelude::*;
use crate::text::{
    ascii_lowered, contains, contains_text, lower_ascii, push_bytes, same, trim, trimmed,
};

verus! {

/// The key of the mark that a track is instrumental, so that it is never looked up again.
pub const INSTRUMENTAL_KEY: &'static str = "AMDL_INSTRUMENTAL";

/// The kind of a picture that is a front cover.
pub const FRONT_COVER: u8 = 3;

/// An embedded picture.
#[derive(Debug)]
pub struct Picture {
    /// What it shows, by the numbers that ID3 gives.
    pub kind: u8,
    pub mime: Option<String>,
    pub description: Option<String>,
    pub data: Vec<u8>,
}

#[verifier::ext_equal]
pub struct PictureV {
    pub kind: u8,
    pub mime: Option<Seq<char>>,
    pub description: Option<Seq<char>>,
    pub data: Seq<u8>,
}

impl DeepView for Picture {
    type V = PictureV;

    open spec fn deep_view(&self) -> PictureV {
        PictureV {
            kind: self.kind,
            mime: self.mime.deep_view(),
            description: self.description.deep_view(),
            data: self.data@,
        }
    }
}

/// An item under a key that is not a standard one.
#[derive(Debug)]
pub struct Custom {
    pub key: String,
    pub value: String,
}

#[verifier::ext_equal]
pub struct CustomV {
    pub key: Seq<char>,
    pub value: Seq<char>,
}

impl DeepView for Custom {
    type V = CustomV;

    open spec fn deep_view(&self) -> CustomV {
        CustomV { key: self.key@, value: self.value@ }
    }
}

/// What is read and written of a tag.
#[derive(Debug)]
pub struct Tag {
    pub title: Option<String>,
    pub artist: Option<String>,
    pub album: Option<String>,
    pub album_artist: Option<String>,
    pub compilation: Option<String>,
    pub lyrics: Option<String>,
    pub custom: Vec<Custom>,
    pub pictures: Vec<Picture>,
}

#[verifier::ext_equal]
pub struct TagV {
    pub title: Option<Seq<char>>,
    pub artist: Option<Seq<char>>,
    pub album: Option<Seq<char>>,
    pub album_artist: Option<Seq<char>>,
    pub compilation: Option<Seq<char>>,
    pub lyrics: Option<Seq<char>>,
    pub custom: Seq<CustomV>,
    pub pictures: Seq<PictureV>,
}

impl DeepView for Tag {
    type V = TagV;

    open spec fn deep_view(&self) -> TagV {
        TagV {
            title: self.title.deep_view(),
            artist: self.artist.deep_view(),
            album: self.album.deep_view(),
            album_artist: self.album_artist.deep_view(),
            compilation: self.compilation.deep_view(),
            lyrics: self.lyrics.deep_view(),
            custom: self.custom.deep_view(),
            pictures: self.pictures.deep_view(),
        }
    }
}

/// A tag with nothing in it, which a file without one is given before it is changed.
pub open spec fn empty_tag() -> TagV {
    TagV {
        title: None,
        artist: None,
        album: None,
        album_artist: None,
        compilation: None,
        lyrics: None,
        custom: seq![],
        pictures: seq![],
    }
}

impl Default for Tag {
    fn default() -> (r: Tag)
        ensures
            r.deep_view() == empty_tag(),
    {
        let t = Tag {
            title: None,
            artist: None,
            album: None,
            album_artist: None,
            compilation: None,
            lyrics: None,
            custom: Vec::new(),
            pictures: Vec::new(),
        };
        assert(t.deep_view() =~= empty_tag());
        t
    }
}

/// A copy of a picture.
pub fn copy_picture(p: &Picture) -> (r: Picture)
    ensures
        r.deep_view() == p.deep_view(),
{
    let mut data: Vec<u8> = Vec::new();
    push_bytes(&mut data, p.data.as_slice());
    assert(data@ =~= p.data@);
    Picture { kind: p.kind, mime: p.mime.clone(), description: p.description.clone(), data }
}

// ---- reading -----------------------------------------------------------------------------

/// The value of the first item from `i` on under this key.
pub open spec fn custom_from(c: Seq<CustomV>, key: Seq<char>, i: int) -> Option<Seq<char>>
    decreases c.len() - i,
{
    if i < 0 || i >= c.len() {
        None
    } else if c[i].key == key {
        Some(c[i].value)
    } else {
        custom_from(c, key, i + 1)
    }
}

/// The tag carries the instrumental mark.
pub open spec fn is_marked(t: TagV) -> bool {
    match custom_from(t.custom, INSTRUMENTAL_KEY@, 0) {
        Some(v) => trimmed(v) == seq!['1'],
        None => false,
    }
}

pub(crate) fn custom_value<'a>(custom: &'a [Custom], key: &str) -> (r: Option<&'a String>)
    ensures
        r.deep_view() == custom_from(custom.deep_view(), key@, 0),
{
    let ghost cv = custom.deep_view();
    let mut i: usize = 0;
    while i < custom.len()
        invariant
            i <= custom@.len(),
            cv == custom.deep_view(),
            custom_from(cv, key@, 0) == custom_from(cv, key@, i as int),
        decreases custom@.len() - i,
    {
        assert(cv[i as int] == custom@[i as int].deep_view());
        if same(custom[i].key.as_str(), key) {
            return Some(&custom[i].value);
        }
        i += 1;
    }
    None
}

/// Whether the tag carries the instrumental mark.
pub fn is_instrumental_mark(tag: &Tag) -> (r: bool)
    ensures
        r == is_marked(tag.deep_view()),
{
    proof {
        reveal_strlit("1");
        assert("1"@ =~= seq!['1']);
    }
    match custom_value(tag.custom.as_slice(), INSTRUMENTAL_KEY) {
        Some(v) => same(trim(v.as_str()).as_str(), "1"),
        None => false,
    }
}

/// The picture that counts as the cover: the first front cover from `i` on, else the
/// first picture.
pub open spec fn cover_from(p: Seq<PictureV>, i: int) -> Option<int>
    decreases p.len() - i,
{
    if i < 0 || i >= p.len() {
        if p.len() > 0 {
            Some(0)
        } else {
            None
        }
    } else if p[i].kind == FRONT_COVER {
        Some(i)
    } else {
        cover_from(p, i + 1)
    }
}

/// The place of the picture that counts as the cover.
pub fn read_cover(tag: &Tag) -> (r: Option<usize>)
    ensures
        match r {
            Some(k) => k < tag.pictures@.len() && cover_from(tag.deep_view().pictures, 0) == Some(k as int),
            None => cover_from(tag.deep_view().pictures, 0) is None,
        },
{
    let ghost pv = tag.deep_view().pictures;
    let mut i: usize = 0;
    while i < tag.pictures.len()
        invariant
            i <= tag.pictures@.len(),
            pv == tag.pictures.deep_view(),
            cover_from(pv, 0) == cover_from(pv, i as int),
        decreases tag.pictures@.len() - i,
    {
        assert(pv[i as int] == tag.pictures@[i as int].deep_view());
        if tag.pictures[i].kind == FRONT_COVER {
            return Some(i);
        }
        i += 1;
    }
    if tag.pictures.len() > 0 {
        Some(0)
    } else {
        None
    }
}

/// The tags that a player shows, and what else scans need.
#[derive(Debug)]
pub struct Basic {
    pub title: Option<String>,
    pub artist: Option<String>,
    pub album: Option<String>,
    pub album_artist: Option<String>,
    pub has_cover: bool,
    pub instrumental_marked: bool,
}

#[verifier::ext_equal]
pub struct BasicV {
    pub title: Option<Seq<char>>,
    pub artist: Option<Seq<char>>,
    pub album: Option<Seq<char>>,
    pub album_artist: Option<Seq<char>>,
    pub has_cover: bool,
    pub instrumental_marked: bool,
}

impl DeepView for Basic {
    type V = BasicV;

    open spec fn deep_view(&self) -> BasicV {
        BasicV {
            title: self.title.deep_view(),
            artist: self.artist.deep_view(),
            album: self.album.deep_view(),
            album_artist: self.album_artist.deep_view(),
            has_cover: self.has_cover,
            instrumental_marked: self.instrumental_marked,
        }
    }
}

/// What is read of a file with this tag; nothing where it has none or cannot be read.
pub open spec fn basic_of(tag: Option<TagV>) -> BasicV {
    match tag {
        Some(t) => BasicV {
            title: t.title,
            artist: t.artist,
            album: t.album,
            album_artist: t.album_artist,
            has_cover: t.pictures.len() > 0,
            instrumental_marked: is_marked(t),
        },
        None => BasicV {
            title: None,
            artist: None,
            album: None,
            album_artist: None,
            has_cover: false,
            instrumental_marked: false,
        },
    }
}

impl Default for Basic {
    fn default() -> (r: Basic)
        ensures
            r.deep_view() == basic_of(None),
    {
        Basic {
            title: None,
            artist: None,
            album: None,
            album_artist: None,
            has_cover: false,
            instrumental_marked: false,
        }
    }
}

/// What is read of a file with this tag.
pub fn read_basic(tag: Option<&Tag>) -> (r: Basic)
    ensures
        r.deep_view() == basic_of(tag.deep_view()),
{
    match tag {
        None => Basic::default(),
        Some(t) => Basic {
            title: t.title.clone(),
            artist: t.artist.clone(),
            album: t.album.clone(),
            album_artist: t.album_artist.clone(),
            has_cover: t.pictures.len() > 0,
            instrumental_marked: is_instrumental_mark(t),
        },
    }
}

/// A length in whole seconds, from milliseconds.
pub fn duration_secs(millis: Option<u64>) -> (r: Option<u64>)
    ensures
        r == (match millis {
            Some(m) => Some((m / 1000) as u64),
            None => None,
        }),
{
    match millis {
        Some(m) => Some(m / 1000),
        None => None,
    }
}

/// Whether any of a file's tags holds a picture.
pub fn has_cover(tags: &[Tag]) -> (r: bool)
    ensures
        r == exists|i: int| 0 <= i < tags@.len() && (#[trigger] tags.deep_view()[i]).pictures.len() > 0,
{
    let mut i: usize = 0;
    while i < tags.len()
        invariant
            i <= tags@.len(),
            forall|k: int| 0 <= k < i ==> (#[trigger] tags.deep_view()[k]).pictures.len() == 0,
        decreases tags@.len() - i,
    {
        assert(tags.deep_view()[i as int].pictures.len() == tags@[i as int].pictures@.len());
        if tags[i].pictures.len() > 0 {
            return true;
        }
        i += 1;
    }
    false
}

/// What one look at a file gives: tags, cover, lyrics and audio properties.
#[derive(Debug)]
pub struct Meta {
    pub title: Option<String>,
    pub artist: Option<String>,
    pub album: Option<String>,
    pub album_artist: Option<String>,
    pub has_cover: bool,
    pub lyrics: Option<String>,
    pub duration_secs: u64,
    /// In kbps.
    pub bitrate_kbps: Option<u32>,
    pub sample_rate: Option<u32>,
    pub channels: Option<u8>,
}

#[verifier::ext_equal]
pub struct MetaV {
    pub title: Option<Seq<char>>,
    pub artist: Option<Seq<char>>,
    pub album: Option<Seq<char>>,
    pub album_artist: Option<Seq<char>>,
    pub has_cover: bool,
    pub lyrics: Option<Seq<char>>,
    pub duration_secs: u64,
    pub bitrate_kbps: Option<u32>,
    pub sample_rate: Option<u32>,
    pub channels: Option<u8>,
}

impl DeepView for Meta {
    type V = MetaV;

    open spec fn deep_view(&self) -> MetaV {
        MetaV {
            title: self.title.deep_view(),
            artist: self.artist.deep_view(),
            album: self.album.deep_view(),
            album_artist: self.album_artist.deep_view(),
            has_cover: self.has_cover,
            lyrics: self.lyrics.deep_view(),
            duration_secs: self.duration_secs,
            bitrate_kbps: self.bitrate_kbps,
            sample_rate: self.sample_rate,
            channels: self.channels,
        }
    }
}

/// The audio properties of a file.
#[derive(Clone, Copy, Debug)]
pub struct Properties {
    pub millis: u64,
    pub audio_bitrate: Option<u32>,
    pub overall_bitrate: Option<u32>,
    pub sample_rate: Option<u32>,
    pub channels: Option<u8>,
}

/// What one look at a file gives.
pub open spec fn meta_of(p: Properties, tag: Option<TagV>) -> MetaV {
    let b = basic_of(tag);
    MetaV {
        title: b.title,
        artist: b.artist,
        album: b.album,
        album_artist: b.album_artist,
        has_cover: b.has_cover,
        lyrics: match tag {
            Some(t) => t.lyrics,
            None => None,
        },
        duration_secs: (p.millis / 1000) as u64,
        bitrate_kbps: if p.audio_bitrate is Some {
            p.audio_bitrate
        } else {
            p.overall_bitrate
        },
        sample_rate: p.sample_rate,
        channels: p.channels,
    }
}

/// What one look at a file gives. The bitrate of the audio counts before that of the
/// whole container.
pub fn read_meta(p: Properties, tag: Option<&Tag>) -> (r: Meta)
    ensures
        r.deep_view() == meta_of(p, tag.deep_view()),
{
    let b = read_basic(tag);
    Meta {
        title: b.title,
        artist: b.artist,
        album: b.album,
        album_artist: b.album_artist,
        has_cover: b.has_cover,
        lyrics: match tag {
            Some(t) => t.lyrics.clone(),
            None => None,
        },
        duration_secs: p.millis / 1000,
        bitrate_kbps: if p.audio_bitrate.is_some() {
            p.audio_bitrate
        } else {
            p.overall_bitrate
        },
        sample_rate: p.sample_rate,
        channels: p.channels,
    }
}

// ---- junk ----------------------------------------------------------------------------------

/// A key that means nothing in an Opus file and only pollutes it.
pub open spec fn junk_key(key: Seq<char>) -> bool {
    let k = ascii_lowered(key);
    ||| contains_text(k, "itunsmpb"@)
    ||| contains_text(k, "itunnorm"@)
    ||| contains_text(k, "itunes_cddb"@)
    ||| contains_text(k, "itunmovi"@)
    ||| contains_text(k, "com.apple.itunes"@)
    ||| k == "major_brand"@
    ||| k == "minor_version"@
    ||| k == "compatible_brands"@
    ||| k == "encoder"@
    ||| k == "handler_name"@
    ||| k == "vendor_id"@
}

/// Whether a key means nothing in an Opus file.
pub fn is_junk_key(key: &str) -> (r: bool)
    ensures
        r == junk_key(key@),
{
    let low = lower_ascii(key);
    let k = low.as_str();
    contains(k, "itunsmpb") || contains(k, "itunnorm") || contains(k, "itunes_cddb") || contains(k, "itunmovi")
        || contains(k, "com.apple.itunes") || same(k, "major_brand") || same(k, "minor_version") || same(
        k,
        "compatible_brands",
    ) || same(k, "encoder") || same(k, "handler_name") || same(k, "vendor_id")
}

/// Those of the first `n` items that are no junk.
pub open spec fn without_junk(c: Seq<CustomV>, n: int) -> Seq<CustomV>
    decreases n,
{
    if n <= 0 {
        seq![]
    } else if junk_key(c[n - 1].key) {
        without_junk(c, n - 1)
    } else {
        without_junk(c, n - 1).push(c[n - 1])
    }
}

pub open spec fn stripped(t: TagV) -> TagV {
    TagV { custom: without_junk(t.custom, t.custom.len() as int), ..t }
}

fn copy_custom(c: &Custom) -> (r: Custom)
    ensures
        r.deep_view() == c.deep_view(),
{
    Custom { key: c.key.clone(), value: c.value.clone() }
}

/// Takes the junk out of a tag.
pub fn strip_junk(tag: &mut Tag)
    ensures
        final(tag).deep_view() == stripped(old(tag).deep_view()),
{
    let ghost cv = tag.custom.deep_view();
    let mut out: Vec<Custom> = Vec::new();
    let mut i: usize = 0;
    assert(out.deep_view() =~= without_junk(cv, 0));
    while i < tag.custom.len()
        invariant
            i <= tag.custom@.len(),
            *tag == *old(tag),
            cv == tag.custom.deep_view(),
            out.deep_view() == without_junk(cv, i as int),
        decreases tag.custom@.len() - i,
    {
        let ghost before = out.deep_view();
        assert(cv[i as int] == tag.custom@[i as int].deep_view());
        if !is_junk_key(tag.custom[i].key.as_str()) {
            out.push(copy_custom(&tag.custom[i]));
            assert(out.deep_view() =~= before.push(cv[i as int]));
        }
        i += 1;
    }
    tag.custom = out;
}

proof fn lemma_without_junk_clean(c: Seq<CustomV>, n: int)
    requires
        0 <= n <= c.len(),
    ensures
        forall|i: int| 0 <= i < without_junk(c, n).len() ==> !junk_key((#[trigger] without_junk(c, n)[i]).key),
    decreases n,
{
    if n > 0 {
        lemma_without_junk_clean(c, n - 1);
        let w = without_junk(c, n - 1);
        assert forall|i: int| 0 <= i < without_junk(c, n).len() implies !junk_key((#[trigger] without_junk(c, n)[i]).key) by {
            if i < w.len() {
                assert(without_junk(c, n)[i] == w[i]);
            }
        }
    }
}

proof fn lemma_clean_stays(c: Seq<CustomV>, n: int)
    requires
        0 <= n <= c.len(),
        forall|i: int| 0 <= i < c.len() ==> !junk_key((#[trigger] c[i]).key),
    ensures
        without_junk(c, n) == c.take(n),
    decreases n,
{
    if n > 0 {
        lemma_clean_stays(c, n - 1);
        assert(c.take(n) =~= c.take(n - 1).push(c[n - 1]));
    } else {
        assert(without_junk(c, n) =~= c.take(n));
    }
}

/// Stripping leaves no junk, and stripping again changes nothing.
pub proof fn law_strip_junk(t: TagV, i: int)
    ensures
        0 <= i < stripped(t).custom.len() ==> !junk_key(stripped(t).custom[i].key),
        stripped(stripped(t)) == stripped(t),
{
    lemma_without_junk_clean(t.custom, t.custom.len() as int);
    let c = stripped(t).custom;
    lemma_clean_stays(c, c.len() as int);
    assert(c.take(c.len() as int) =~= c);
    assert(stripped(stripped(t)) =~= stripped(t));
}

/// The instrumental mark outlives stripping.
pub proof fn law_mark_is_no_junk()
    ensures
        !junk_key(INSTRUMENTAL_KEY@),
{
    reveal_strlit("AMDL_INSTRUMENTAL");
    reveal_strlit("itunsmpb");
    reveal_strlit("itunnorm");
    reveal_strlit("itunes_cddb");
    reveal_strlit("itunmovi");
    reveal_strlit("com.apple.itunes");
    reveal_strlit("major_brand");
    reveal_strlit("minor_version");
    reveal_strlit("compatible_brands");
    reveal_strlit("encoder");
    reveal_strlit("handler_name");
    reveal_strlit("vendor_id");
    let k = ascii_lowered(INSTRUMENTAL_KEY@);
    lemma_no_match(k, "itunsmpb"@);
    lemma_no_match(k, "itunnorm"@);
    lemma_no_match(k, "itunes_cddb"@);
    lemma_no_match(k, "itunmovi"@);
    assert(k[0] == 'a');
    assert forall|i: int| !crate::text::matches_at(k, "com.apple.itunes"@, i) by {
        if crate::text::matches_at(k, "com.apple.itunes"@, i) {
            assert(k.subrange(i, i + 16)[0] == k[i]);
            assert(k.subrange(i, i + 16)[3] == k[i + 3]);
        }
    }
}

/// No `itu` in the lowered mark.
proof fn lemma_no_match(k: Seq<char>, pat: Seq<char>)
    requires
        k == ascii_lowered(INSTRUMENTAL_KEY@),
        pat.len() > 2,
        pat[0] == 'i',
        pat[1] == 't',
    ensures
        !contains_text(k, pat),
{
    reveal_strlit("AMDL_INSTRUMENTAL");
    assert forall|i: int| !crate::text::matches_at(k, pat, i) by {
        if crate::text::matches_at(k, pat, i) {
            assert(k.subrange(i, i + pat.len())[0] == k[i]);
            assert(k.subrange(i, i + pat.len())[1] == k[i + 1]);
        }
    }
}

// ---- changes -------------------------------------------------------------------------------

/// A fresh Opus file's tag after it is finished: no junk, and the cover where it had no
/// picture.
pub open spec fn finalized(t: TagV, cover: Option<PictureV>) -> TagV {
    let s = stripped(t);
    match cover {
        Some(c) if s.pictures.len() == 0 => TagV { pictures: seq![c], ..s },
        _ => s,
    }
}

/// Finishes a fresh Opus file's tag. Whether the cover was put in.
pub fn finalize_opus(tag: &mut Tag, cover: Option<&Picture>) -> (r: bool)
    ensures
        final(tag).deep_view() == finalized(old(tag).deep_view(), cover.deep_view()),
        r == (cover is Some && old(tag).deep_view().pictures.len() == 0),
{
    strip_junk(tag);
    if tag.pictures.len() == 0 {
        if let Some(c) = cover {
            let ghost before = tag.deep_view();
            tag.pictures.push(copy_picture(c));
            assert(tag.pictures.deep_view() =~= seq![c.deep_view()]);
            return true;
        }
    }
    false
}

/// Finishing again changes nothing, whatever cover is offered then, once there is a
/// picture; and a picture that is there is never replaced.
pub proof fn law_finalize(t: TagV, cover: Option<PictureV>, other: Option<PictureV>)
    ensures
        finalized(finalized(t, cover), cover) == finalized(t, cover),
        finalized(t, cover).pictures.len() > 0 ==> finalized(finalized(t, cover), other) == finalized(t, cover),
        t.pictures.len() > 0 ==> finalized(t, cover).pictures == t.pictures,
{
    law_strip_junk(t, 0);
    assert(finalized(finalized(t, cover), cover) =~= finalized(t, cover));
    assert(stripped(finalized(t, cover)) =~= finalized(t, cover));
}

/// Replaces all pictures by one cover, and takes the junk out.
pub fn set_cover(tag: &mut Tag, cover: &Picture)
    ensures
        final(tag).deep_view() == (TagV { pictures: seq![cover.deep_view()], ..stripped(old(tag).deep_view()) }),
{
    strip_junk(tag);
    let mut pictures: Vec<Picture> = Vec::new();
    pictures.push(copy_picture(cover));
    assert(pictures.deep_view() =~= seq![cover.deep_view()]);
    tag.pictures = pictures;
}

/// The new value where there is one, else the old.
pub open spec fn or_kept(new: Option<Seq<char>>, old_value: Option<Seq<char>>) -> Option<Seq<char>> {
    if new is Some {
        new
    } else {
        old_value
    }
}

/// Sets title, artist and album where a value is given.
pub fn write_fields(tag: &mut Tag, title: Option<&str>, artist: Option<&str>, album: Option<&str>)
    ensures
        final(tag).deep_view() == (TagV {
            title: or_kept(title.deep_view(), old(tag).deep_view().title),
            artist: or_kept(artist.deep_view(), old(tag).deep_view().artist),
            album: or_kept(album.deep_view(), old(tag).deep_view().album),
            ..old(tag).deep_view()
        }),
{
    if let Some(t) = title {
        tag.title = Some(t.to_string());
    }
    if let Some(a) = artist {
        tag.artist = Some(a.to_string());
    }
    if let Some(al) = album {
        tag.album = Some(al.to_string());
    }
}

/// The album artist of a compilation.
pub const VARIOUS_ARTISTS: &'static str = "Various Artists";

/// A track put into its album: the album's title and, where it is a compilation, the
/// album artist and the flag of one.
pub open spec fn grouped(t: TagV, album: Seq<char>, compilation: bool) -> TagV {
    let g = TagV { album: Some(album), ..t };
    if compilation {
        TagV { album_artist: Some(VARIOUS_ARTISTS@), compilation: Some("1"@), ..g }
    } else {
        g
    }
}

/// Puts a track into its album.
pub fn set_album_grouping(tag: &mut Tag, album: &str, compilation: bool)
    ensures
        final(tag).deep_view() == grouped(old(tag).deep_view(), album@, compilation),
{
    tag.album = Some(album.to_string());
    if compilation {
        tag.album_artist = Some(VARIOUS_ARTISTS.to_string());
        tag.compilation = Some("1".to_string());
    }
}

/// Replaces the embedded lyrics.
pub fn set_lyrics(tag: &mut Tag, lyrics: &str)
    ensures
        final(tag).deep_view() == (TagV { lyrics: Some(lyrics@), ..old(tag).deep_view() }),
{
    tag.lyrics = Some(lyrics.to_string());
}

/// Takes the embedded lyrics out.
pub fn clear_lyrics(tag: &mut Tag)
    ensures
        final(tag).deep_view() == (TagV { lyrics: None, ..old(tag).deep_view() }),
{
    tag.lyrics = None;
}

/// Those of the first `n` items that are not under this key.
pub open spec fn without_key(c: Seq<CustomV>, key: Seq<char>, n: int) -> Seq<CustomV>
    decreases n,
{
    if n <= 0 {
        seq![]
    } else if c[n - 1].key == key {
        without_key(c, key, n - 1)
    } else {
        without_key(c, key, n - 1).push(c[n - 1])
    }
}

/// The items after one is put in under a key, replacing all that were there, or, with
/// no value, after those are taken out.
pub open spec fn with_custom(c: Seq<CustomV>, key: Seq<char>, value: Option<Seq<char>>) -> Seq<CustomV> {
    let rest = without_key(c, key, c.len() as int);
    match value {
        Some(v) => rest.push(CustomV { key, value: v }),
        None => rest,
    }
}

/// Puts an item in under a key, or takes all under it out.
pub fn set_custom(custom: &mut Vec<Custom>, key: &str, value: Option<&str>)
    ensures
        final(custom).deep_view() == with_custom(old(custom).deep_view(), key@, value.deep_view()),
{
    let ghost cv = custom.deep_view();
    let mut out: Vec<Custom> = Vec::new();
    let mut i: usize = 0;
    assert(out.deep_view() =~= without_key(cv, key@, 0));
    while i < custom.len()
        invariant
            i <= custom@.len(),
            cv == custom.deep_view(),
            out.deep_view() == without_key(cv, key@, i as int),
        decreases custom@.len() - i,
    {
        let ghost before = out.deep_view();
        assert(cv[i as int] == custom@[i as int].deep_view());
        if !same(custom[i].key.as_str(), key) {
            out.push(copy_custom(&custom[i]));
            assert(out.deep_view() =~= before.push(cv[i as int]));
        }
        i += 1;
    }
    let ghost rest = out.deep_view();
    if let Some(v) = value {
        out.push(Custom { key: key.to_string(), value: v.to_string() });
        assert(out.deep_view() =~= rest.push(CustomV { key: key@, value: v@ }));
    }
    *custom = out;
}

/// The tag with the instrumental mark on or off.
pub open spec fn with_mark(t: TagV, on: bool) -> TagV {
    TagV {
        custom: with_custom(
            t.custom,
            INSTRUMENTAL_KEY@,
            if on {
                Some("1"@)
            } else {
                None
            },
        ),
        ..t
    }
}

/// Stamps the instrumental mark.
pub fn set_instrumental_mark(tag: &mut Tag)
    ensures
        final(tag).deep_view() == with_mark(old(tag).deep_view(), true),
{
    set_custom(&mut tag.custom, INSTRUMENTAL_KEY, Some("1"));
}

/// Takes the instrumental mark off.
pub fn clear_instrumental_mark(tag: &mut Tag)
    ensures
        final(tag).deep_view() == with_mark(old(tag).deep_view(), false),
{
    set_custom(&mut tag.custom, INSTRUMENTAL_KEY, None);
}

proof fn lemma_without_key(c: Seq<CustomV>, key: Seq<char>, n: int)
    requires
        0 <= n <= c.len(),
    ensures
        forall|i: int| 0 <= i < without_key(c, key, n).len() ==> (#[trigger] without_key(c, key, n)[i]).key != key,
    decreases n,
{
    if n > 0 {
        lemma_without_key(c, key, n - 1);
        let w = without_key(c, key, n - 1);
        assert forall|i: int| 0 <= i < without_key(c, key, n).len() implies (#[trigger] without_key(c, key, n)[i]).key != key by {
            if i < w.len() {
                assert(without_key(c, key, n)[i] == w[i]);
            }
        }
    }
}

proof fn lemma_custom_from(c: Seq<CustomV>, key: Seq<char>, i: int, e: int)
    requires
        0 <= i <= e <= c.len(),
        forall|k: int| i <= k < e ==> (#[trigger] c[k]).key != key,
    ensures
        custom_from(c, key, i) == custom_from(c, key, e),
    decreases e - i,
{
    if i < e {
        lemma_custom_from(c, key, i + 1, e);
    }
}

/// What is put in under a key is what is read back, and what is taken out is gone.
pub proof fn law_custom(c: Seq<CustomV>, key: Seq<char>, value: Option<Seq<char>>)
    ensures
        custom_from(with_custom(c, key, value), key, 0) == value,
{
    let rest = without_key(c, key, c.len() as int);
    let all = with_custom(c, key, value);
    lemma_without_key(c, key, c.len() as int);
    lemma_custom_from(all, key, 0, rest.len() as int);
}

/// The mark reads back as it was set.
pub proof fn law_mark(t: TagV, on: bool)
    ensures
        is_marked(with_mark(t, on)) == on,
{
    let value = if on {
        Some("1"@)
    } else {
        None
    };
    law_custom(t.custom, INSTRUMENTAL_KEY@, value);
    reveal_strlit("1");
    if on {
        let one = "1"@;
        assert(crate::text::skip_space(one, 0) == 0);
        assert(crate::text::trim_front(one) =~= one);
        assert(crate::text::trimmed_len(one, 1) == 1);
        assert(trimmed(one) =~= seq!['1']);
    }
}

/// Stripping takes out the junk and keeps every other item, in order.
pub proof fn law_without_junk(c: Seq<CustomV>)
    ensures
        without_junk(c, c.len() as int) == c.filter(|x: CustomV| !junk_key(x.key)),
{
    lemma_without_junk(c, c.len() as int);
    assert(c.take(c.len() as int) =~= c);
}

proof fn lemma_without_junk(c: Seq<CustomV>, n: int)
    requires
        0 <= n <= c.len(),
    ensures
        without_junk(c, n) == c.take(n).filter(|x: CustomV| !junk_key(x.key)),
    decreases n,
{
    reveal(Seq::filter);
    if n > 0 {
        lemma_without_junk(c, n - 1);
        assert(c.take(n).drop_last() =~= c.take(n - 1));
        assert(c.take(n).last() == c[n - 1]);
    }
}

/// Taking a key out takes out all that is under it and keeps every other item, in order.
pub proof fn law_without_key(c: Seq<CustomV>, key: Seq<char>)
    ensures
        without_key(c, key, c.len() as int) == c.filter(|x: CustomV| x.key != key),
{
    lemma_other_keys(c, key, c.len() as int);
    assert(c.take(c.len() as int) =~= c);
}

proof fn lemma_other_keys(c: Seq<CustomV>, key: Seq<char>, n: int)
    requires
        0 <= n <= c.len(),
    ensures
        without_key(c, key, n) == c.take(n).filter(|x: CustomV| x.key != key),
    decreases n,
{
    reveal(Seq::filter);
    if n > 0 {
        lemma_other_keys(c, key, n - 1);
        assert(c.take(n).drop_last() =~= c.take(n - 1));
        assert(c.take(n).last() == c[n - 1]);
    }
}

/// The value under a key is that of the first item under it.
pub proof fn law_custom_from(c: Seq<CustomV>, key: Seq<char>)
    ensures
        match custom_from(c, key, 0) {
            Some(v) => exists|k: int|
                0 <= k < c.len() && (#[trigger] c[k]).key == key && c[k].value == v && forall|j: int|
                    0 <= j < k ==> (#[trigger] c[j]).key != key,
            None => forall|j: int| 0 <= j < c.len() ==> (#[trigger] c[j]).key != key,
        },
{
    lemma_first_custom(c, key, 0);
}

proof fn lemma_first_custom(c: Seq<CustomV>, key: Seq<char>, i: int)
    requires
        0 <= i,
    ensures
        match custom_from(c, key, i) {
            Some(v) => exists|k: int|
                i <= k < c.len() && (#[trigger] c[k]).key == key && c[k].value == v && forall|j: int|
                    i <= j < k ==> (#[trigger] c[j]).key != key,
            None => forall|j: int| i <= j < c.len() ==> (#[trigger] c[j]).key != key,
        },
    decreases c.len() - i,
{
    if i < c.len() && c[i].key != key {
        lemma_first_custom(c, key, i + 1);
        if let Some(v) = custom_from(c, key, i + 1) {
            let k = choose|k: int|
                i + 1 <= k < c.len() && (#[trigger] c[k]).key == key && c[k].value == v && forall|j: int|
                    i + 1 <= j < k ==> (#[trigger] c[j]).key != key;
            assert(c[k].key == key);
        }
    }
}

/// The cover is the first front cover among the pictures, else the first picture, and there is
/// none only where there is no picture.
pub proof fn law_cover(p: Seq<PictureV>)
    ensures
        match cover_from(p, 0) {
            Some(k) => 0 <= k < p.len() && (p[k].kind == 3 && (forall|j: int| 0 <= j < k ==> (#[trigger] p[j]).kind != 3) || k
                == 0 && forall|j: int| 0 <= j < p.len() ==> (#[trigger] p[j]).kind != 3),
            None => p.len() == 0,
        },
{
    lemma_cover(p, 0);
}

proof fn lemma_cover(p: Seq<PictureV>, i: int)
    requires
        0 <= i,
        forall|j: int| 0 <= j < i && j < p.len() ==> (#[trigger] p[j]).kind != 3,
    ensures
        match cover_from(p, i) {
            Some(k) => 0 <= k < p.len() && (p[k].kind == 3 && (forall|j: int| 0 <= j < k ==> (#[trigger] p[j]).kind != 3) || k
                == 0 && forall|j: int| 0 <= j < p.len() ==> (#[trigger] p[j]).kind != 3),
            None => p.len() == 0,
        },
    decreases p.len() - i,
{
    if i < p.len() && p[i].kind != 3 {
        lemma_cover(p, i + 1);
    }
}

/// What is read of a file is what its tag holds, and nothing where it has none.
pub proof fn law_basic(t: TagV)
    ensures
        basic_of(Some(t)).title == t.title,
        basic_of(Some(t)).artist == t.artist,
        basic_of(Some(t)).album == t.album,
        basic_of(Some(t)).album_artist == t.album_artist,
        basic_of(Some(t)).has_cover <==> t.pictures.len() > 0,
        basic_of(Some(t)).instrumental_marked <==> is_marked(t),
        basic_of(None).title is None && basic_of(None).artist is None && basic_of(None).album is None,
        basic_of(None).album_artist is None && !basic_of(None).has_cover && !basic_of(None).instrumental_marked,
{
}

/// Finishing a file touches nothing but the junk and the pictures, and gives it the offered cover
/// where it has no picture.
pub proof fn law_finalize_keeps(t: TagV, cover: Option<PictureV>)
    ensures
        ({
            let f = finalized(t, cover);
            &&& f.title == t.title && f.artist == t.artist && f.album == t.album && f.album_artist == t.album_artist
            &&& f.compilation == t.compilation && f.lyrics == t.lyrics
            &&& f.custom == t.custom.filter(|x: CustomV| !junk_key(x.key))
            &&& t.pictures.len() == 0 ==> f.pictures == (match cover {
                Some(c) => seq![c],
                None => seq![],
            })
        }),
{
    law_without_junk(t.custom);
    assert(t.pictures.len() == 0 ==> t.pictures =~= seq![]);
}

/// A track that is put into its album has that album, and of a compilation its album artist and
/// its flag; all else stays.
pub proof fn law_grouped(t: TagV, album: Seq<char>, compilation: bool)
    ensures
        ({
            let g = grouped(t, album, compilation);
            &&& g.album == Some(album)
            &&& compilation ==> g.album_artist == Some("Various Artists"@) && g.compilation == Some("1"@)
            &&& !compilation ==> g.album_artist == t.album_artist && g.compilation == t.compilation
            &&& g.title == t.title && g.artist == t.artist && g.lyrics == t.lyrics
            &&& g.custom == t.custom && g.pictures == t.pictures
        }),
{
}

/// A look at a file gives what its tag says, full seconds of its length, and the bitrate of its
/// audio or, where that is not known, of the whole file.
pub proof fn law_meta(p: Properties, t: TagV)
    ensures
        ({
            let m = meta_of(p, Some(t));
            let n = meta_of(p, None);
            &&& m.title == basic_of(Some(t)).title && m.artist == basic_of(Some(t)).artist
            &&& m.album == basic_of(Some(t)).album && m.album_artist == basic_of(Some(t)).album_artist
            &&& m.has_cover == basic_of(Some(t)).has_cover
            &&& m.lyrics == t.lyrics && n.lyrics is None
            &&& m.duration_secs * 1000 <= p.millis < (m.duration_secs + 1) * 1000
            &&& p.audio_bitrate is Some ==> m.bitrate_kbps == p.audio_bitrate
            &&& p.audio_bitrate is None ==> m.bitrate_kbps == p.overall_bitrate
            &&& m.sample_rate == p.sample_rate && m.channels == p.channels
        }),
{
}

} // verus!
