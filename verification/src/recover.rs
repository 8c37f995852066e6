//! Recovering tracks that a source file never produced: copied from another library that
//! has them, or fetched anew.
//!
//! A candidate is only taken where its title and its length agree with the broken
//! track's: a live cut, a remix or another version is worse than none.
use vstd::prelude::*;
use crate::covers::{album_key, norm_album};
use crate::json::{json_value, list_field, micros_field, parse, text_field, Json, JsonV};
use crate::path::{file_stem, parent_name, parent_name_of, stem_of};
use crate::sort::{sort_texts, sorted_texts, total};
use crate::tags::VARIOUS_ARTISTS;
use crate::text::{ascii_digit, cat3, cat5, chars_of, lemma_flatten_push, same, squash, squashed, text_of};

verus! {

/// How far apart two lengths of one recording may be, in seconds.
pub const DURATION_TOL_SECS: u64 = 3;

// ---- what a file is called ---------------------------------------------------------------

/// A character that can be part of a track number at the front of a file name.
pub open spec fn numbering(c: char) -> bool {
    ascii_digit(c) || c == '-' || c == ' '
}

/// The first place at or after `i` that is no part of a track number.
pub open spec fn after_number(s: Seq<char>, i: int) -> int
    decreases s.len() - i,
{
    if i < 0 || i >= s.len() || !numbering(s[i]) {
        i
    } else {
        after_number(s, i + 1)
    }
}

/// The title that a file's name gives: the stem without a track number, or all of it
/// where nothing else is there.
pub open spec fn title_in_stem(stem: Seq<char>) -> Seq<char> {
    let t = stem.skip(after_number(stem, 0));
    if t.len() == 0 {
        stem
    } else {
        t
    }
}

pub open spec fn stem_or_empty(path: Seq<char>) -> Seq<char> {
    match stem_of(path) {
        Some(s) => s,
        None => seq![],
    }
}

/// What is known of a track: from its tags, else from its name and its folder.
#[derive(Debug)]
pub struct TrackMeta {
    pub artist: Option<String>,
    pub title: String,
    pub album: Option<String>,
}

proof fn lemma_after_number(s: Seq<char>, i: int)
    requires
        0 <= i <= s.len(),
    ensures
        i <= after_number(s, i) <= s.len(),
    decreases s.len() - i,
{
    if i < s.len() && numbering(s[i]) {
        lemma_after_number(s, i + 1);
    }
}

fn title_from_stem(stem: &str) -> (r: String)
    ensures
        r@ == title_in_stem(stem@),
{
    let c = chars_of(stem);
    let mut i: usize = 0;
    while i < c.len() && (('0' <= c[i] && c[i] <= '9') || c[i] == '-' || c[i] == ' ')
        invariant
            i <= c@.len(),
            c@ == stem@,
            after_number(stem@, 0) == after_number(stem@, i as int),
        decreases c@.len() - i,
    {
        i += 1;
    }
    assert(c@.subrange(i as int, c@.len() as int) =~= stem@.skip(i as int));
    if i == c.len() {
        stem.to_string()
    } else {
        text_of(&c, i, c.len())
    }
}

/// What is known of a source file with these tags.
pub fn resolve_meta(path: &str, artist: Option<String>, title: Option<String>, album: Option<String>) -> (r: TrackMeta)
    ensures
        r.artist == artist,
        r.title@ == (match title {
            Some(t) => t@,
            None => title_in_stem(stem_or_empty(path@)),
        }),
        r.album.deep_view() == (if album is Some {
            album.deep_view()
        } else {
            parent_name_of(path@)
        }),
{
    let title = match title {
        Some(t) => t,
        None => {
            let stem = match file_stem(path) {
                Some(s) => s,
                None => String::new(),
            };
            title_from_stem(stem.as_str())
        },
    };
    let album = match album {
        Some(a) => Some(a),
        None => parent_name(path),
    };
    TrackMeta { artist, title, album }
}

/// What the song search is asked for.
pub fn artist_title(artist: &str, title: &str) -> (r: String)
    ensures
        r@ == artist@ + " "@ + title@,
{
    cat3(artist, " ", title)
}

// ---- candidates ----------------------------------------------------------------------------

/// A candidate is the broken track: their titles agree as they are compared, and so do
/// their lengths where the broken track's is known. Lengths are in milliseconds.
pub open spec fn accepted(title: Seq<char>, length: Option<u64>, cand_title: Seq<char>, cand_length: Option<int>) -> bool {
    &&& squashed(title) == squashed(cand_title)
    &&& match length {
        None => true,
        Some(l) => match cand_length {
            Some(c) => -(DURATION_TOL_SECS * 1000) <= l - c <= DURATION_TOL_SECS * 1000,
            None => false,
        },
    }
}

/// Whether a candidate is the broken track.
pub fn accepts(title: &str, length: Option<u64>, cand_title: &str, cand_length: Option<u64>) -> (r: bool)
    ensures
        r == accepted(
            title@,
            length,
            cand_title@,
            match cand_length {
                Some(c) => Some(c as int),
                None => None,
            },
        ),
{
    if squash(title) != squash(cand_title) {
        return false;
    }
    match length {
        None => true,
        Some(l) => match cand_length {
            Some(c) => {
                let diff: i128 = l as i128 - c as i128;
                let tol: i128 = DURATION_TOL_SECS as i128 * 1000;
                -tol <= diff && diff <= tol
            },
            None => false,
        },
    }
}

/// A track of another library.
#[derive(Debug)]
pub struct Candidate {
    pub path: String,
    pub album: Option<String>,
    pub title: Option<String>,
    /// Its length in milliseconds.
    pub length: Option<u64>,
}

#[verifier::ext_equal]
pub struct CandidateV {
    pub path: Seq<char>,
    pub album: Option<Seq<char>>,
    pub title: Option<Seq<char>>,
    pub length: Option<u64>,
}

impl DeepView for Candidate {
    type V = CandidateV;

    open spec fn deep_view(&self) -> CandidateV {
        CandidateV {
            path: self.path@,
            album: self.album.deep_view(),
            title: self.title.deep_view(),
            length: self.length,
        }
    }
}

/// A track of another library is the broken one: album and title agree as they are
/// compared, and the length does.
pub open spec fn is_copy(c: CandidateV, title: Seq<char>, album: Seq<char>, length: Option<u64>) -> bool {
    match (c.album, c.title) {
        (Some(al), Some(ti)) => album_key(al) == album_key(album) && accepted(
            title,
            length,
            ti,
            match c.length {
                Some(l) => Some(l as int),
                None => None,
            },
        ),
        _ => false,
    }
}

/// The first track from `i` on that is the broken one.
pub open spec fn copy_from(cs: Seq<CandidateV>, title: Seq<char>, album: Seq<char>, length: Option<u64>, i: int) -> Option<int>
    decreases cs.len() - i,
{
    if i < 0 || i >= cs.len() {
        None
    } else if is_copy(cs[i], title, album, length) {
        Some(i)
    } else {
        copy_from(cs, title, album, length, i + 1)
    }
}

pub open spec fn text_or_empty(s: Option<Seq<char>>) -> Seq<char> {
    match s {
        Some(t) => t,
        None => seq![],
    }
}

/// The first track of the other libraries that is the broken one.
pub fn find_copy(candidates: &[Candidate], meta: &TrackMeta, length: Option<u64>) -> (r: Option<usize>)
    ensures
        ({
            let at = copy_from(
                candidates.deep_view(),
                meta.title@,
                text_or_empty(meta.album.deep_view()),
                length,
                0,
            );
            match r {
                Some(k) => k < candidates@.len() && at == Some(k as int),
                None => at is None,
            }
        }),
{
    let ghost cs = candidates.deep_view();
    let ghost al = text_or_empty(meta.album.deep_view());
    let key = match &meta.album {
        Some(a) => norm_album(a.as_str()),
        None => norm_album(""),
    };
    proof {
        reveal_strlit("");
        assert(""@ =~= seq![]);
    }
    let mut i: usize = 0;
    while i < candidates.len()
        invariant
            i <= candidates@.len(),
            cs == candidates.deep_view(),
            al == text_or_empty(meta.album.deep_view()),
            key@ == album_key(al),
            copy_from(cs, meta.title@, al, length, 0) == copy_from(cs, meta.title@, al, length, i as int),
        decreases candidates@.len() - i,
    {
        let c = &candidates[i];
        assert(cs[i as int] == c.deep_view());
        match (&c.album, &c.title) {
            (Some(a), Some(t)) => {
                if norm_album(a.as_str()) == key && accepts(meta.title.as_str(), length, t.as_str(), c.length) {
                    return Some(i);
                }
            },
            _ => {},
        }
        i += 1;
    }
    None
}

/// What a song of the search says of itself. The length is in millionths of a
/// millisecond.
pub open spec fn song_accepted(v: JsonV, title: Seq<char>, length: Option<u64>) -> bool {
    match text_field(v, "trackName"@) {
        None => false,
        Some(t) => squashed(title) == squashed(t) && match length {
            None => true,
            Some(l) => match micros_field(v, "trackTimeMillis"@) {
                Some(c) => -(DURATION_TOL_SECS * 1000 * 1_000_000) <= l * 1_000_000 - c <= DURATION_TOL_SECS * 1000
                    * 1_000_000,
                None => false,
            },
        },
    }
}

/// The address of the first song from `i` on that is the broken track and has one.
pub open spec fn song_from(l: Seq<JsonV>, title: Seq<char>, length: Option<u64>, i: int) -> Option<Seq<char>>
    decreases l.len() - i,
{
    if i < 0 || i >= l.len() {
        None
    } else if song_accepted(l[i], title, length) && text_field(l[i], "trackViewUrl"@) is Some {
        text_field(l[i], "trackViewUrl"@)
    } else {
        song_from(l, title, length, i + 1)
    }
}

/// The address of the song that the search found.
pub open spec fn song_url(v: Option<JsonV>, title: Seq<char>, length: Option<u64>) -> Option<Seq<char>> {
    match v {
        Some(x) => match list_field(x, "results"@) {
            Some(l) => song_from(l, title, length, 0),
            None => None,
        },
        None => None,
    }
}

fn accepts_song(v: &Json, title: &str, length: Option<u64>) -> (r: bool)
    ensures
        r == song_accepted(v.deep_view(), title@, length),
{
    match v.text_at("trackName") {
        None => false,
        Some(t) => {
            if squash(title) != squash(t) {
                return false;
            }
            match length {
                None => true,
                Some(l) => match v.micros_at("trackTimeMillis") {
                    Some(c) => {
                        let diff: i128 = l as i128 * 1_000_000 - c as i128;
                        let tol: i128 = DURATION_TOL_SECS as i128 * 1000 * 1_000_000;
                        -tol <= diff && diff <= tol
                    },
                    None => false,
                },
            }
        },
    }
}

/// The address of the first song that is the broken track.
pub fn pick_song(v: &Json, title: &str, length: Option<u64>) -> (r: Option<String>)
    ensures
        r.deep_view() == song_url(Some(v.deep_view()), title@, length),
{
    match v.list_at("results") {
        None => None,
        Some(l) => {
            let ghost lv = l.deep_view();
            let mut i: usize = 0;
            while i < l.len()
                invariant
                    i <= l@.len(),
                    lv == l.deep_view(),
                    song_url(Some(v.deep_view()), title@, length) == song_from(lv, title@, length, i as int),
                decreases l@.len() - i,
            {
                assert(lv[i as int] == l@[i as int].deep_view());
                if accepts_song(&l[i], title, length) {
                    if let Some(u) = l[i].text_at("trackViewUrl") {
                        return Some(u.to_string());
                    }
                }
                i += 1;
            }
            None
        },
    }
}

/// The address of the song that the search found with this body.
pub fn itunes_song_url(body: &str, title: &str, length: Option<u64>) -> (r: Option<String>)
    ensures
        r.deep_view() == song_url(json_value(body@), title@, length),
{
    match parse(body) {
        Some(v) => pick_song(&v, title, length),
        None => None,
    }
}

/// Nothing is substituted: whatever the search found, the song that is taken has the
/// broken track's title and, where that is known, its length.
pub proof fn law_song_verified(l: Seq<JsonV>, title: Seq<char>, length: Option<u64>, i: int)
    requires
        0 <= i,
    ensures
        song_from(l, title, length, i) matches Some(u) ==> exists|k: int|
            i <= k < l.len() && song_accepted(#[trigger] l[k], title, length) && text_field(l[k], "trackViewUrl"@) == Some(u),
    decreases l.len() - i,
{
    if i < l.len() {
        if song_accepted(l[i], title, length) && text_field(l[i], "trackViewUrl"@) is Some {
        } else {
            law_song_verified(l, title, length, i + 1);
        }
    }
}

/// The same of a copy from another library.
pub proof fn law_copy_verified(cs: Seq<CandidateV>, title: Seq<char>, album: Seq<char>, length: Option<u64>, i: int)
    requires
        0 <= i,
    ensures
        copy_from(cs, title, album, length, i) matches Some(k) ==> i <= k < cs.len() && is_copy(cs[k], title, album, length),
    decreases cs.len() - i,
{
    if i < cs.len() && !is_copy(cs[i], title, album, length) {
        law_copy_verified(cs, title, album, length, i + 1);
    }
}

// ---- what to do ------------------------------------------------------------------------------

/// Whether the track of a source file is broken: no Opus was made of it, or the one that was
/// cannot be read.
pub fn is_broken(has_opus: bool, readable: bool) -> (r: bool)
    ensures
        r == !(has_opus && readable),
{
    !has_opus || !readable
}

/// How a broken track is recovered.
#[derive(Clone, Copy, PartialEq, Eq, Structural, Debug)]
pub enum Step {
    /// Copy it from another library.
    Copy,
    /// Fetch it anew.
    Fetch,
    /// Leave it broken.
    Leave,
}

/// How a broken track is recovered: a copy costs nothing and comes first; fetching needs
/// leave to go online and an artist to search for, and is never tried in a dry run.
pub fn step(has_copy: bool, online: bool, dry_run: bool, has_artist: bool) -> (r: Step)
    ensures
        r == (if has_copy {
            Step::Copy
        } else if online && !dry_run && has_artist {
            Step::Fetch
        } else {
            Step::Leave
        }),
{
    if has_copy {
        Step::Copy
    } else if online && !dry_run && has_artist {
        Step::Fetch
    } else {
        Step::Leave
    }
}

/// The grouping that a sibling's tags give: its album, and whether it is a compilation.
pub open spec fn grouping_of(album: Option<Seq<char>>, album_artist: Option<Seq<char>>) -> Option<(Seq<char>, bool)> {
    match album {
        Some(a) if a.len() > 0 => Some((a, album_artist == Some(VARIOUS_ARTISTS@))),
        _ => None,
    }
}

/// The grouping that a sibling's tags give.
pub fn grouping_from_sibling(sibling_album: Option<&str>, sibling_album_artist: Option<&str>) -> (r: Option<(String, bool)>)
    ensures
        r.deep_view() == grouping_of(sibling_album.deep_view(), sibling_album_artist.deep_view()),
{
    match sibling_album {
        None => None,
        Some(a) => {
            if a.is_empty() {
                return None;
            }
            let compilation = match sibling_album_artist {
                Some(aa) => same(aa, VARIOUS_ARTISTS),
                None => false,
            };
            Some((a.to_string(), compilation))
        },
    }
}

/// Whether a recovered file still has to be put into its album.
pub fn needs_regroup(current: Option<&str>, album: &str) -> (r: bool)
    ensures
        r == (current.deep_view() != Some(album@)),
{
    match current {
        Some(c) => !same(c, album),
        None => true,
    }
}

/// Those of the first `n` files that were not there before.
pub open spec fn fresh_upto(before: Seq<Seq<char>>, after: Seq<Seq<char>>, n: int) -> Seq<Seq<char>>
    decreases n,
{
    if n <= 0 {
        seq![]
    } else if before.contains(after[n - 1]) {
        fresh_upto(before, after, n - 1)
    } else {
        fresh_upto(before, after, n - 1).push(after[n - 1])
    }
}

/// The files that were not there before.
pub fn fresh_files(before: &[String], after: &[String]) -> (r: Vec<String>)
    ensures
        r.deep_view() == fresh_upto(before.deep_view(), after.deep_view(), after@.len() as int),
{
    let ghost bv = before.deep_view();
    let ghost av = after.deep_view();
    let mut out: Vec<String> = Vec::new();
    let mut i: usize = 0;
    assert(out.deep_view() =~= fresh_upto(bv, av, 0));
    while i < after.len()
        invariant
            i <= after@.len(),
            bv == before.deep_view(),
            av == after.deep_view(),
            out.deep_view() == fresh_upto(bv, av, i as int),
        decreases after@.len() - i,
    {
        let ghost sofar = out.deep_view();
        assert(av[i as int] == after@[i as int]@);
        if !crate::text::holds(before, after[i].as_str()) {
            out.push(after[i].clone());
            assert(out.deep_view() =~= sofar.push(av[i as int]));
        }
        i += 1;
    }
    out
}

// ---- the report ------------------------------------------------------------------------------

/// How a broken track ended.
#[derive(Debug)]
pub enum Ending {
    /// It was copied, and so many files were put into its album.
    Copied(usize),
    /// It was fetched, and so many files were put into its album.
    Fetched(usize),
    /// It is still broken, and is listed with this line.
    Broken(String),
}

#[derive(Debug)]
pub struct Report {
    pub broken: usize,
    pub recovered_from_sibling: usize,
    pub reacquired: usize,
    /// Files that were put into their album.
    pub regrouped: usize,
    pub dry_run: bool,
    pub still_broken: Vec<String>,
}

/// The line of a track that is still broken.
pub open spec fn broken_text(artist: Option<Seq<char>>, title: Seq<char>, rel: Seq<char>) -> Seq<char> {
    (match artist {
        Some(a) => a,
        None => "?"@,
    }) + " — "@ + title + " ("@ + rel + ")"@
}

/// The line of a track that is still broken.
pub fn broken_line(meta: &TrackMeta, rel: &str) -> (r: String)
    ensures
        r@ == broken_text(meta.artist.deep_view(), meta.title@, rel@),
{
    let who = match &meta.artist {
        Some(a) => a.clone(),
        None => "?".to_string(),
    };
    let mut o = cat5(who.as_str(), " — ", meta.title.as_str(), " (", rel);
    o.append(")");
    o
}

pub open spec fn copied_count(es: Seq<Ending>, n: int) -> nat
    decreases n,
{
    if n <= 0 {
        0
    } else if es[n - 1] is Copied {
        copied_count(es, n - 1) + 1
    } else {
        copied_count(es, n - 1)
    }
}

pub open spec fn fetched_count(es: Seq<Ending>, n: int) -> nat
    decreases n,
{
    if n <= 0 {
        0
    } else if es[n - 1] is Fetched {
        fetched_count(es, n - 1) + 1
    } else {
        fetched_count(es, n - 1)
    }
}

pub open spec fn regrouped_count(es: Seq<Ending>, n: int) -> nat
    decreases n,
{
    if n <= 0 {
        0
    } else {
        regrouped_count(es, n - 1) + (match es[n - 1] {
            Ending::Copied(k) => k as nat,
            Ending::Fetched(k) => k as nat,
            Ending::Broken(_) => 0,
        })
    }
}

pub open spec fn broken_lines(es: Seq<Ending>, n: int) -> Seq<Seq<char>>
    decreases n,
{
    if n <= 0 {
        seq![]
    } else {
        match es[n - 1] {
            Ending::Broken(s) => broken_lines(es, n - 1).push(s@),
            _ => broken_lines(es, n - 1),
        }
    }
}

/// The report on a run over broken tracks that ended so.
pub fn summarize(endings: &[Ending], dry_run: bool) -> (r: Report)
    ensures
        r.broken == endings@.len(),
        r.recovered_from_sibling == copied_count(endings@, endings@.len() as int),
        r.reacquired == fetched_count(endings@, endings@.len() as int),
        r.regrouped == crate::covers::fitting(regrouped_count(endings@, endings@.len() as int)),
        r.dry_run == dry_run,
        r.still_broken.deep_view() == sorted_texts(broken_lines(endings@, endings@.len() as int)),
{
    let mut copied: usize = 0;
    let mut fetched: usize = 0;
    let mut regrouped: usize = 0;
    let mut lines: Vec<String> = Vec::new();
    let mut i: usize = 0;
    assert(lines.deep_view() =~= broken_lines(endings@, 0));
    while i < endings.len()
        invariant
            i <= endings@.len(),
            copied <= i,
            fetched <= i,
            copied == copied_count(endings@, i as int),
            fetched == fetched_count(endings@, i as int),
            regrouped == crate::covers::fitting(regrouped_count(endings@, i as int)),
            lines.deep_view() == broken_lines(endings@, i as int),
        decreases endings@.len() - i,
    {
        let ghost before = lines.deep_view();
        match &endings[i] {
            Ending::Copied(k) => {
                copied += 1;
                regrouped = if usize::MAX - regrouped < *k {
                    usize::MAX
                } else {
                    regrouped + *k
                };
            },
            Ending::Fetched(k) => {
                fetched += 1;
                regrouped = if usize::MAX - regrouped < *k {
                    usize::MAX
                } else {
                    regrouped + *k
                };
            },
            Ending::Broken(s) => {
                lines.push(s.clone());
                assert(lines.deep_view() =~= before.push(s@));
            },
        }
        i += 1;
    }
    Report {
        broken: endings.len(),
        recovered_from_sibling: copied,
        reacquired: fetched,
        regrouped,
        dry_run,
        still_broken: sort_texts(lines),
    }
}

/// A track is taken for the broken one only with its title, as titles are compared, and, where the
/// broken track's length is known, with a length no more than three seconds off.
pub proof fn law_accepted(title: Seq<char>, length: Option<u64>, t: Seq<char>, c: Option<int>)
    ensures
        accepted(title, length, t, c) <==> squashed(title) == squashed(t) && (length matches Some(l) ==> c is Some && c->0 <= l
            + 3000 && l <= c->0 + 3000),
{
}

/// A candidate is the broken track.
pub open spec fn is_the_track(c: CandidateV, title: Seq<char>, album: Seq<char>, length: Option<u64>) -> bool {
    &&& c.album is Some && album_key(c.album->0) == album_key(album)
    &&& c.title is Some && squashed(c.title->0) == squashed(title)
    &&& length matches Some(l) ==> c.length is Some && c.length->0 <= l + 3000 && l <= c.length->0 + 3000
}

/// The copy that is taken is the first candidate that is the broken track: of its album and with its
/// title, as they are compared, and no more than three seconds off where its length is known.
pub proof fn law_copy(cs: Seq<CandidateV>, title: Seq<char>, album: Seq<char>, length: Option<u64>)
    ensures
        match copy_from(cs, title, album, length, 0) {
            Some(k) => 0 <= k < cs.len() && is_the_track(cs[k], title, album, length) && forall|j: int| 0 <= j < k ==> !(is_the_track(#[trigger] cs[j], title, album, length)),
            None => forall|j: int| 0 <= j < cs.len() ==> !(is_the_track(#[trigger] cs[j], title, album, length)),
        },
{
    lemma_copy(cs, title, album, length, 0);
}

proof fn lemma_copy(cs: Seq<CandidateV>, title: Seq<char>, album: Seq<char>, length: Option<u64>, i: int)
    requires
        0 <= i,
    ensures
        match copy_from(cs, title, album, length, i) {
            Some(k) => i <= k < cs.len() && is_the_track(cs[k], title, album, length) && forall|j: int| i <= j < k ==> !(is_the_track(#[trigger] cs[j], title, album, length)),
            None => forall|j: int| i <= j < cs.len() ==> !(is_the_track(#[trigger] cs[j], title, album, length)),
        },
    decreases cs.len() - i,
{
    if i < cs.len() && !(is_the_track(cs[i], title, album, length)) {
        lemma_copy(cs, title, album, length, i + 1);
    }
}

/// A song of the search is the broken track and can be fetched.
pub open spec fn is_the_song(v: JsonV, title: Seq<char>, length: Option<u64>) -> bool {
    &&& text_field(v, "trackViewUrl"@) is Some
    &&& text_field(v, "trackName"@) matches Some(t) && squashed(t) == squashed(title)
    &&& length matches Some(l) ==> micros_field(v, "trackTimeMillis"@) is Some && micros_field(v, "trackTimeMillis"@)->0 <= (l
        + 3000) * 1_000_000 && l * 1_000_000 <= micros_field(v, "trackTimeMillis"@)->0 + 3_000_000_000
}

/// The song that is fetched is the first of the search that has an address, has the broken track's
/// title, as titles are compared, and is no more than three seconds off where the length is known.
pub proof fn law_song(v: JsonV, title: Seq<char>, length: Option<u64>)
    ensures
        match list_field(v, "results"@) {
            Some(l) => match song_url(Some(v), title, length) {
                Some(u) => exists|k: int|
                    0 <= k < l.len() && is_the_song(#[trigger] l[k], title, length) && text_field(l[k], "trackViewUrl"@) == Some(u)
                        && forall|j: int| 0 <= j < k ==> !is_the_song(#[trigger] l[j], title, length),
                None => forall|j: int| 0 <= j < l.len() ==> !is_the_song(#[trigger] l[j], title, length),
            },
            None => song_url(Some(v), title, length) is None,
        },
        song_url(None, title, length) is None,
{
    if let Some(l) = list_field(v, "results"@) {
        lemma_song(l, title, length, 0);
    }
}

proof fn lemma_song(l: Seq<JsonV>, title: Seq<char>, length: Option<u64>, i: int)
    requires
        0 <= i,
    ensures
        match song_from(l, title, length, i) {
            Some(u) => exists|k: int|
                i <= k < l.len() && is_the_song(#[trigger] l[k], title, length) && text_field(l[k], "trackViewUrl"@) == Some(u)
                    && forall|j: int| i <= j < k ==> !is_the_song(#[trigger] l[j], title, length),
            None => forall|j: int| i <= j < l.len() ==> !is_the_song(#[trigger] l[j], title, length),
        },
    decreases l.len() - i,
{
    if i < l.len() && !is_the_song(l[i], title, length) {
        lemma_song(l, title, length, i + 1);
        if let Some(u) = song_from(l, title, length, i + 1) {
            let k = choose|k: int|
                i + 1 <= k < l.len() && is_the_song(#[trigger] l[k], title, length) && text_field(l[k], "trackViewUrl"@) == Some(u)
                    && forall|j: int| i + 1 <= j < k ==> !is_the_song(#[trigger] l[j], title, length);
            assert(is_the_song(l[k], title, length));
        }
    }
}

/// The title in a file name is what follows the digits, dashes and blanks at its front, or all of
/// it where nothing does.
pub proof fn law_title_in_stem(number: Seq<char>, title: Seq<char>)
    requires
        forall|i: int|
            0 <= i < number.len() ==> {
                let c = #[trigger] number[i];
                ('0' <= c && c <= '9') || c == '-' || c == ' '
            },
        title.len() > 0 ==> !('0' <= title[0] && title[0] <= '9') && title[0] != '-' && title[0] != ' ',
    ensures
        title_in_stem(number + title) == (if title.len() > 0 {
            title
        } else {
            number
        }),
{
    let s = number + title;
    lemma_number(s, 0, number.len() as int);
    assert(title.len() > 0 ==> s[number.len() as int] == title[0]);
    assert(s.skip(number.len() as int) =~= title);
    assert(title.len() == 0 ==> s =~= number);
}

proof fn lemma_number(s: Seq<char>, i: int, e: int)
    requires
        0 <= i <= e <= s.len(),
        forall|k: int| i <= k < e ==> numbering(#[trigger] s[k]),
    ensures
        after_number(s, i) == after_number(s, e),
    decreases e - i,
{
    if i < e {
        assert(numbering(s[i]));
        lemma_number(s, i + 1, e);
    }
}

/// A sibling says what album a track belongs to exactly where it has one that is not empty, and
/// that it is a compilation where its album artist says so.
pub proof fn law_grouping(album: Option<Seq<char>>, album_artist: Option<Seq<char>>)
    ensures
        match grouping_of(album, album_artist) {
            Some((a, c)) => album == Some(a) && a.len() > 0 && (c <==> album_artist == Some("Various Artists"@)),
            None => album is None || album->0.len() == 0,
        },
{
}

/// The fresh files are those that were not there before, in their order.
pub proof fn law_fresh(before: Seq<Seq<char>>, after: Seq<Seq<char>>)
    ensures
        fresh_upto(before, after, after.len() as int) == after.filter(|x: Seq<char>| !before.contains(x)),
{
    lemma_fresh(before, after, after.len() as int);
    assert(after.take(after.len() as int) =~= after);
}

proof fn lemma_fresh(before: Seq<Seq<char>>, after: Seq<Seq<char>>, n: int)
    requires
        0 <= n <= after.len(),
    ensures
        fresh_upto(before, after, n) == after.take(n).filter(|x: Seq<char>| !before.contains(x)),
    decreases n,
{
    reveal(Seq::filter);
    if n > 0 {
        lemma_fresh(before, after, n - 1);
        assert(after.take(n).drop_last() =~= after.take(n - 1));
        assert(after.take(n).last() == after[n - 1]);
    }
}

/// The copied ones are the tracks that ended as copies.
pub proof fn law_copied_count(es: Seq<Ending>)
    ensures
        copied_count(es, es.len() as int) == es.filter(|x: Ending| x is Copied).len(),
{
    lemma_copied_count(es, es.len() as int);
    assert(es.take(es.len() as int) =~= es);
}

proof fn lemma_copied_count(es: Seq<Ending>, n: int)
    requires
        0 <= n <= es.len(),
    ensures
        copied_count(es, n) == es.take(n).filter(|x: Ending| x is Copied).len(),
    decreases n,
{
    reveal(Seq::filter);
    if n > 0 {
        lemma_copied_count(es, n - 1);
        assert(es.take(n).drop_last() =~= es.take(n - 1));
        assert(es.take(n).last() == es[n - 1]);
    }
}

/// The fetched ones are the tracks that were fetched anew.
pub proof fn law_fetched_count(es: Seq<Ending>)
    ensures
        fetched_count(es, es.len() as int) == es.filter(|x: Ending| x is Fetched).len(),
{
    lemma_fetched_count(es, es.len() as int);
    assert(es.take(es.len() as int) =~= es);
}

proof fn lemma_fetched_count(es: Seq<Ending>, n: int)
    requires
        0 <= n <= es.len(),
    ensures
        fetched_count(es, n) == es.take(n).filter(|x: Ending| x is Fetched).len(),
    decreases n,
{
    reveal(Seq::filter);
    if n > 0 {
        lemma_fetched_count(es, n - 1);
        assert(es.take(n).drop_last() =~= es.take(n - 1));
        assert(es.take(n).last() == es[n - 1]);
    }
}

/// Each track that is still broken is listed with its own line.
pub proof fn law_broken_lines(es: Seq<Ending>)
    ensures
        broken_lines(es, es.len() as int) == es.map_values(|x: Ending| match x {
                Ending::Broken(s) => seq![s@],
                _ => seq![],
            }).flatten(),
{
    lemma_broken_lines(es, es.len() as int);
    assert(es.take(es.len() as int) =~= es);
}

proof fn lemma_broken_lines(es: Seq<Ending>, n: int)
    requires
        0 <= n <= es.len(),
    ensures
        broken_lines(es, n) == es.take(n).map_values(|x: Ending| match x {
                Ending::Broken(s) => seq![s@],
                _ => seq![],
            }).flatten(),
    decreases n,
{
    let all = es.take(n).map_values(|x: Ending| match x {
                Ending::Broken(s) => seq![s@],
                _ => seq![],
            });
    if n > 0 {
        lemma_broken_lines(es, n - 1);
        let before = es.take(n - 1).map_values(|x: Ending| match x {
                Ending::Broken(s) => seq![s@],
                _ => seq![],
            });
        assert(all =~= before.push(all[n - 1]));
        assert(es.take(n)[n - 1] == es[n - 1]);
        lemma_flatten_push(before, all[n - 1]);
        assert(broken_lines(es, n) =~= before.flatten() + all[n - 1]);
    } else {
        assert(all =~= seq![]);
        assert(all.flatten() =~= seq![]);
    }
}

/// As many tracks are counted as regrouped as were, with the files that were copied and with those
/// that were fetched.
pub proof fn law_regrouped_count(es: Seq<Ending>)
    ensures
        regrouped_count(es, es.len() as int) == total(es.map_values(|x: Ending| match x {
            Ending::Copied(k) => k as int,
            Ending::Fetched(k) => k as int,
            Ending::Broken(_) => 0,
        })),
{
    lemma_regrouped_count(es, es.len() as int);
    assert(es.take(es.len() as int) =~= es);
}

proof fn lemma_regrouped_count(es: Seq<Ending>, n: int)
    requires
        0 <= n <= es.len(),
    ensures
        regrouped_count(es, n) == total(es.take(n).map_values(|x: Ending| match x {
            Ending::Copied(k) => k as int,
            Ending::Fetched(k) => k as int,
            Ending::Broken(_) => 0,
        })),
    decreases n,
{
    if n > 0 {
        lemma_regrouped_count(es, n - 1);
        let all = es.take(n).map_values(|x: Ending| match x {
            Ending::Copied(k) => k as int,
            Ending::Fetched(k) => k as int,
            Ending::Broken(_) => 0,
        });
        assert(all.drop_last() =~= es.take(n - 1).map_values(|x: Ending| match x {
            Ending::Copied(k) => k as int,
            Ending::Fetched(k) => k as int,
            Ending::Broken(_) => 0,
        }));
        assert(es.take(n)[n - 1] == es[n - 1]);
    }
}

/// A track that is still broken is named by its artist, its title and where it is; an artist that is
/// not known is a question mark.
pub proof fn law_broken_text(artist: Seq<char>, title: Seq<char>, rel: Seq<char>)
    ensures
        broken_text(Some(artist), title, rel) == artist + (" — "@ + (title + (" ("@ + (rel + ")"@)))),
        broken_text(None, title, rel) == broken_text(Some("?"@), title, rel),
{
    assert(broken_text(Some(artist), title, rel) =~= artist + (" — "@ + (title + (" ("@ + (rel + ")"@)))));
}

} // verus!
