//! Identifying a track by its sound: what the fingerprinter and the lookup service
//! answered, and what is done with a match.
use vstd::prelude::*;
use crate::json::{field, json_value, list_field, micros_field, parse, scaled_field, text_field, text_in, Json, JsonV};
use crate::tags::Basic;
use crate::text::{cat, decimal, decimal_text, lemma_flatten_push, same};

verus! {

/// The places behind the point that a score keeps: it is a whole number of units of
/// which `10^18` are one.
pub const SCORE_PLACES: u8 = 18;

/// The score below which a match is never applied unless asked for: a wrong tag is worse
/// than none.
pub const DEFAULT_MIN_SCORE: i64 = 900_000_000_000_000_000;

/// The least time between two lookups, in milliseconds.
pub const MIN_INTERVAL_MS: u64 = 350;

/// How long to wait before a lookup, given the time since the last one in milliseconds.
pub open spec fn wait_of(since_last: Option<u64>) -> int {
    match since_last {
        Some(t) => if t < MIN_INTERVAL_MS {
            MIN_INTERVAL_MS - t
        } else {
            0
        },
        None => 0,
    }
}

/// How long to wait before a lookup.
pub fn wait_ms(since_last: Option<u64>) -> (r: u64)
    ensures
        r == wait_of(since_last),
{
    match since_last {
        Some(t) => if t < MIN_INTERVAL_MS {
            MIN_INTERVAL_MS - t
        } else {
            0
        },
        None => 0,
    }
}

/// Two lookups are never closer than the interval: the time since the last one and the
/// wait that follows add up to it.
pub proof fn law_rate(since_last: u64)
    ensures
        since_last + wait_of(Some(since_last)) >= MIN_INTERVAL_MS,
{
}

// ---- the fingerprint -----------------------------------------------------------------------

/// A fingerprint and the length of what was heard, in seconds.
#[derive(Debug)]
pub struct Fingerprint {
    pub duration: u64,
    pub text: String,
}

/// Millionths rounded to the nearest whole number, halves away from zero; nothing is
/// below zero.
pub open spec fn rounded_secs(micros: int) -> int {
    if micros <= 0 {
        0
    } else {
        (micros + 500_000) / 1_000_000
    }
}

pub open spec fn duration_in(v: JsonV) -> int {
    match micros_field(v, "duration"@) {
        Some(m) => rounded_secs(m),
        None => 0,
    }
}

/// The fingerprint in an answer of the fingerprinter.
pub fn read_fingerprint(v: &Json) -> (r: Option<Fingerprint>)
    ensures
        ({
            let t = text_field(v.deep_view(), "fingerprint"@);
            match r {
                Some(f) => t == Some(f.text@) && f.text@.len() > 0 && f.duration == duration_in(v.deep_view()),
                None => t is None || t->0.len() == 0,
            }
        }),
{
    let duration: u64 = match v.micros_at("duration") {
        Some(m) => if m <= 0 {
            0
        } else {
            ((m as u64) + 500_000) / 1_000_000
        },
        None => 0,
    };
    match v.text_at("fingerprint") {
        Some(t) => {
            if t.is_empty() {
                None
            } else {
                Some(Fingerprint { duration, text: t.to_string() })
            }
        },
        None => None,
    }
}

/// The fingerprint in what the fingerprinter printed.
pub fn fingerprint(stdout: &str) -> (r: Option<Fingerprint>)
    ensures
        match json_value(stdout@) {
            None => r is None,
            Some(v) => match r {
                Some(f) => text_field(v, "fingerprint"@) == Some(f.text@) && f.text@.len() > 0 && f.duration
                    == duration_in(v),
                None => text_field(v, "fingerprint"@) is None || text_field(v, "fingerprint"@)->0.len() == 0,
            },
        },
{
    match parse(stdout) {
        Some(v) => read_fingerprint(&v),
        None => None,
    }
}

/// The form that a lookup sends. The kinds of data asked for are separated by a space,
/// which the form's encoding turns into the plus that the service expects.
pub open spec fn form_of(key: Seq<char>, duration: nat, fp: Seq<char>) -> Seq<(Seq<char>, Seq<char>)> {
    seq![
        ("client"@, key),
        ("duration"@, decimal(duration)),
        ("fingerprint"@, fp),
        ("meta"@, "recordings releasegroups"@),
    ]
}

/// The form that a lookup sends.
pub fn lookup_form(key: &str, fp: &Fingerprint) -> (r: Vec<(String, String)>)
    ensures
        r.deep_view() == form_of(key@, fp.duration as nat, fp.text@),
{
    let mut v: Vec<(String, String)> = Vec::new();
    v.push(("client".to_string(), key.to_string()));
    v.push(("duration".to_string(), decimal_text(fp.duration)));
    v.push(("fingerprint".to_string(), fp.text.clone()));
    v.push(("meta".to_string(), "recordings releasegroups".to_string()));
    assert(v.deep_view() =~= form_of(key@, fp.duration as nat, fp.text@));
    v
}

// ---- the match -----------------------------------------------------------------------------

#[derive(Debug, Clone)]
pub struct Match {
    pub artist: Option<String>,
    pub title: Option<String>,
    pub album: Option<String>,
    /// With [`SCORE_PLACES`] places behind the point.
    pub score: i64,
}

#[verifier::ext_equal]
pub struct MatchV {
    pub artist: Option<Seq<char>>,
    pub title: Option<Seq<char>>,
    pub album: Option<Seq<char>>,
    pub score: int,
}

impl DeepView for Match {
    type V = MatchV;

    open spec fn deep_view(&self) -> MatchV {
        MatchV {
            artist: self.artist.deep_view(),
            title: self.title.deep_view(),
            album: self.album.deep_view(),
            score: self.score as int,
        }
    }
}

/// Why a lookup gave no answer.
#[derive(Debug)]
pub enum LookupError {
    /// The answer was no JSON.
    Unreadable,
    /// The service refused, for this reason.
    Refused(String),
}

pub open spec fn names_compilation(l: Seq<JsonV>) -> bool {
    exists|i: int| 0 <= i < l.len() && text_in(#[trigger] l[i]) == Some("Compilation"@)
}

/// A release group is a studio album: an album, and no compilation.
pub open spec fn is_studio(rg: JsonV) -> bool {
    text_field(rg, "type"@) == Some("Album"@) && !(match list_field(rg, "secondarytypes"@) {
        Some(l) => names_compilation(l),
        None => false,
    })
}

/// The first studio album from `i` on.
pub open spec fn studio_from(l: Seq<JsonV>, i: int) -> Option<int>
    decreases l.len() - i,
{
    if i < 0 || i >= l.len() {
        None
    } else if is_studio(l[i]) {
        Some(i)
    } else {
        studio_from(l, i + 1)
    }
}

/// The title of the release group to use: the first studio album, else the first of all.
pub open spec fn album_of(rec: JsonV) -> Option<Seq<char>> {
    match list_field(rec, "releasegroups"@) {
        None => None,
        Some(l) => match studio_from(l, 0) {
            Some(i) => text_field(l[i], "title"@),
            None => if l.len() > 0 {
                text_field(l[0], "title"@)
            } else {
                None
            },
        },
    }
}

fn studio(rg: &Json) -> (r: bool)
    ensures
        r == is_studio(rg.deep_view()),
{
    match rg.text_at("type") {
        Some(t) => if !same(t, "Album") {
            return false;
        },
        None => {
            return false;
        },
    }
    if let Some(l) = rg.list_at("secondarytypes") {
        let ghost lv = l.deep_view();
        let mut i: usize = 0;
        while i < l.len()
            invariant
                i <= l@.len(),
                lv == l.deep_view(),
                list_field(rg.deep_view(), "secondarytypes"@) == Some(lv),
                forall|k: int| 0 <= k < i ==> text_in(#[trigger] lv[k]) != Some("Compilation"@),
            decreases l@.len() - i,
        {
            assert(lv[i as int] == l@[i as int].deep_view());
            if let Some(t) = l[i].text() {
                if same(t, "Compilation") {
                    assert(text_in(lv[i as int]) == Some("Compilation"@));
                    return false;
                }
            }
            i += 1;
        }
    }
    true
}

/// The album to file a recording under.
pub fn best_album(rec: &Json) -> (r: Option<String>)
    ensures
        r.deep_view() == album_of(rec.deep_view()),
{
    match rec.list_at("releasegroups") {
        None => None,
        Some(l) => {
            let ghost lv = l.deep_view();
            let mut i: usize = 0;
            while i < l.len()
                invariant
                    i <= l@.len(),
                    lv == l.deep_view(),
                    list_field(rec.deep_view(), "releasegroups"@) == Some(lv),
                    studio_from(lv, 0) == studio_from(lv, i as int),
                decreases l@.len() - i,
            {
                assert(lv[i as int] == l@[i as int].deep_view());
                if studio(&l[i]) {
                    return match l[i].text_at("title") {
                        Some(t) => Some(t.to_string()),
                        None => None,
                    };
                }
                i += 1;
            }
            if l.len() > 0 {
                assert(lv[0] == l@[0].deep_view());
                match l[0].text_at("title") {
                    Some(t) => Some(t.to_string()),
                    None => None,
                }
            } else {
                None
            }
        },
    }
}

/// The name of a recording's first artist.
pub open spec fn artist_of(rec: JsonV) -> Option<Seq<char>> {
    match list_field(rec, "artists"@) {
        Some(l) if l.len() > 0 => text_field(l[0], "name"@),
        _ => None,
    }
}

/// The score of a result, with [`SCORE_PLACES`] places behind the point.
pub open spec fn score_of(res: JsonV) -> int {
    match scaled_field(res, "score"@, SCORE_PLACES as int) {
        Some(m) => m,
        None => 0,
    }
}

pub open spec fn match_of(res: JsonV, rec: JsonV) -> MatchV {
    MatchV {
        artist: artist_of(rec),
        title: text_field(rec, "title"@),
        album: album_of(rec),
        score: score_of(res),
    }
}

/// The match of the first result from `i` on that has a recording.
pub open spec fn match_from(l: Seq<JsonV>, i: int) -> Option<MatchV>
    decreases l.len() - i,
{
    if i < 0 || i >= l.len() {
        None
    } else {
        match list_field(l[i], "recordings"@) {
            Some(rs) if rs.len() > 0 => Some(match_of(l[i], rs[0])),
            _ => match_from(l, i + 1),
        }
    }
}

pub open spec fn refused(v: JsonV) -> bool {
    text_field(v, "status"@) != Some("ok"@)
}

/// The reason that a refusal gives.
pub open spec fn reason_of(v: JsonV) -> Seq<char> {
    "acoustid: "@ + (match field(v, "error"@) {
        Some(e) => match text_field(e, "message"@) {
            Some(m) => m,
            None => "unknown"@,
        },
        None => "unknown"@,
    })
}

pub open spec fn found_in(v: JsonV) -> Option<MatchV> {
    match list_field(v, "results"@) {
        Some(l) => match_from(l, 0),
        None => None,
    }
}

fn read_match(res: &Json, rec: &Json) -> (r: Match)
    ensures
        r.deep_view() == match_of(res.deep_view(), rec.deep_view()),
{
    let artist = match rec.list_at("artists") {
        Some(l) => {
            if l.len() > 0 {
                assert(l.deep_view()[0] == l@[0].deep_view());
                match l[0].text_at("name") {
                    Some(t) => Some(t.to_string()),
                    None => None,
                }
            } else {
                None
            }
        },
        None => None,
    };
    let title = match rec.text_at("title") {
        Some(t) => Some(t.to_string()),
        None => None,
    };
    let score: i64 = match res.scaled_at("score", SCORE_PLACES) {
        Some(m) => m,
        None => 0,
    };
    Match { artist, title, album: best_album(rec), score }
}

/// The match in an answer of the lookup service.
pub fn read_lookup(v: &Json) -> (r: Result<Option<Match>, LookupError>)
    ensures
        match r {
            Ok(m) => !refused(v.deep_view()) && m.deep_view() == found_in(v.deep_view()),
            Err(LookupError::Refused(why)) => refused(v.deep_view()) && why@ == reason_of(v.deep_view()),
            Err(LookupError::Unreadable) => false,
        },
{
    let fine = match v.text_at("status") {
        Some(s) => same(s, "ok"),
        None => false,
    };
    if !fine {
        let why = match v.get("error") {
            Some(e) => match e.text_at("message") {
                Some(m) => m,
                None => "unknown",
            },
            None => "unknown",
        };
        return Err(LookupError::Refused(cat("acoustid: ", why)));
    }
    match v.list_at("results") {
        None => Ok(None),
        Some(l) => {
            let ghost lv = l.deep_view();
            let mut i: usize = 0;
            while i < l.len()
                invariant
                    i <= l@.len(),
                    lv == l.deep_view(),
                    !refused(v.deep_view()),
                    found_in(v.deep_view()) == match_from(lv, i as int),
                decreases l@.len() - i,
            {
                assert(lv[i as int] == l@[i as int].deep_view());
                if let Some(rs) = l[i].list_at("recordings") {
                    if rs.len() > 0 {
                        assert(rs.deep_view()[0] == rs@[0].deep_view());
                        return Ok(Some(read_match(&l[i], &rs[0])));
                    }
                }
                i += 1;
            }
            Ok(None)
        },
    }
}

/// The match in the body that the lookup service answered with.
pub fn lookup(body: &str) -> (r: Result<Option<Match>, LookupError>)
    ensures
        match json_value(body@) {
            None => r matches Err(LookupError::Unreadable),
            Some(v) => match r {
                Ok(m) => !refused(v) && m.deep_view() == found_in(v),
                Err(LookupError::Refused(why)) => refused(v) && why@ == reason_of(v),
                Err(LookupError::Unreadable) => false,
            },
        },
{
    match parse(body) {
        Some(v) => read_lookup(&v),
        None => Err(LookupError::Unreadable),
    }
}

/// A compilation is never preferred to a studio album: where a recording has one, the
/// album comes from one.
pub proof fn law_studio_preferred(rec: JsonV)
    ensures
        list_field(rec, "releasegroups"@) matches Some(l) ==> (exists|i: int|
            0 <= i < l.len() && is_studio(#[trigger] l[i])) ==> exists|k: int|
            0 <= k < l.len() && is_studio(#[trigger] l[k]) && album_of(rec) == text_field(l[k], "title"@),
{
    if let Some(l) = list_field(rec, "releasegroups"@) {
        lemma_studio_from(l, 0);
    }
}

proof fn lemma_studio_from(l: Seq<JsonV>, i: int)
    requires
        0 <= i,
    ensures
        match studio_from(l, i) {
            Some(k) => i <= k < l.len() && is_studio(l[k]),
            None => forall|k: int| i <= k < l.len() ==> !is_studio(#[trigger] l[k]),
        },
    decreases l.len() - i,
{
    if i < l.len() && !is_studio(l[i]) {
        lemma_studio_from(l, i + 1);
    }
}

/// A result of a lookup names a recording.
pub open spec fn has_recording(res: JsonV) -> bool {
    list_field(res, "recordings"@) matches Some(rs) && rs.len() > 0
}

/// A release group is an album and no compilation.
pub open spec fn studio_album(rg: JsonV) -> bool {
    &&& text_field(rg, "type"@) == Some("Album"@)
    &&& list_field(rg, "secondarytypes"@) matches Some(l) ==> !l.contains(JsonV::Text("Compilation"@))
}

/// A match is that of the first result that names a recording, and of the first recording of
/// that result: its title, the name of its first artist, the title of its first studio album,
/// or of its first release where it has none, and the score of the result. There is no match
/// exactly where no result names a recording.
pub proof fn law_first_match(v: JsonV)
    ensures
        match found_in(v) {
            Some(m) => list_field(v, "results"@) matches Some(l) && exists|k: int|
                {
                    &&& 0 <= k < l.len() && has_recording(#[trigger] l[k])
                    &&& forall|j: int| 0 <= j < k ==> !has_recording(#[trigger] l[j])
                    &&& says(m, l[k], list_field(l[k], "recordings"@)->0[0])
                },
            None => list_field(v, "results"@) matches Some(l) ==> forall|j: int|
                0 <= j < l.len() ==> !has_recording(#[trigger] l[j]),
        },
{
    if let Some(l) = list_field(v, "results"@) {
        lemma_match_from(l, 0);
        if let Some(m) = match_from(l, 0) {
            let k = choose|k: int|
                0 <= k < l.len() && has_recording(#[trigger] l[k]) && (forall|j: int|
                    0 <= j < k ==> !has_recording(#[trigger] l[j])) && m == match_of(
                    l[k],
                    list_field(l[k], "recordings"@)->0[0],
                );
            let rec = list_field(l[k], "recordings"@)->0[0];
            if let Some(gs) = list_field(rec, "releasegroups"@) {
                lemma_studio_first(gs, 0);
            }
            assert(says(m, l[k], rec));
        }
    }
}

/// A match says what a result and a recording of it say.
pub open spec fn says(m: MatchV, res: JsonV, rec: JsonV) -> bool {
    &&& m.title == text_field(rec, "title"@)
    &&& match list_field(rec, "artists"@) {
        Some(l) if l.len() > 0 => m.artist == text_field(l[0], "name"@),
        _ => m.artist is None,
    }
    &&& match list_field(rec, "releasegroups"@) {
        Some(gs) if gs.len() > 0 => exists|k: int|
            {
                &&& 0 <= k < gs.len() && m.album == text_field(#[trigger] gs[k], "title"@)
                &&& studio_album(gs[k]) && (forall|j: int| 0 <= j < k ==> !studio_album(#[trigger] gs[j])) || k == 0 && (
                forall|j: int| 0 <= j < gs.len() ==> !studio_album(#[trigger] gs[j]))
            },
        _ => m.album is None,
    }
    &&& match scaled_field(res, "score"@, 18) {
        Some(s) => m.score == s,
        None => m.score == 0,
    }
}

proof fn lemma_match_from(l: Seq<JsonV>, i: int)
    requires
        0 <= i,
    ensures
        match match_from(l, i) {
            Some(m) => exists|k: int|
                i <= k < l.len() && has_recording(#[trigger] l[k]) && (forall|j: int|
                    i <= j < k ==> !has_recording(#[trigger] l[j])) && m == match_of(
                    l[k],
                    list_field(l[k], "recordings"@)->0[0],
                ),
            None => forall|j: int| i <= j < l.len() ==> !has_recording(#[trigger] l[j]),
        },
    decreases l.len() - i,
{
    if i < l.len() {
        if has_recording(l[i]) {
            assert(match_from(l, i) == Some(match_of(l[i], list_field(l[i], "recordings"@)->0[0])));
        } else {
            lemma_match_from(l, i + 1);
            if let Some(m) = match_from(l, i + 1) {
                let k = choose|k: int|
                    i + 1 <= k < l.len() && has_recording(#[trigger] l[k]) && (forall|j: int|
                        i + 1 <= j < k ==> !has_recording(#[trigger] l[j])) && m == match_of(
                        l[k],
                        list_field(l[k], "recordings"@)->0[0],
                    );
                assert(has_recording(l[k]));
            }
        }
    }
}

proof fn lemma_studio_first(l: Seq<JsonV>, i: int)
    requires
        0 <= i,
    ensures
        match studio_from(l, i) {
            Some(k) => i <= k < l.len() && studio_album(l[k]) && forall|j: int|
                i <= j < k ==> !studio_album(#[trigger] l[j]),
            None => forall|j: int| i <= j < l.len() ==> !studio_album(#[trigger] l[j]),
        },
    decreases l.len() - i,
{
    if i < l.len() {
        lemma_studio(l[i]);
        if !is_studio(l[i]) {
            lemma_studio_first(l, i + 1);
        }
    }
}

proof fn lemma_studio(rg: JsonV)
    ensures
        is_studio(rg) == studio_album(rg),
{
    if let Some(l) = list_field(rg, "secondarytypes"@) {
        if names_compilation(l) {
            let i = choose|i: int| 0 <= i < l.len() && text_in(#[trigger] l[i]) == Some("Compilation"@);
            assert(l[i] == JsonV::Text("Compilation"@));
        }
        if l.contains(JsonV::Text("Compilation"@)) {
            let i = choose|i: int| 0 <= i < l.len() && l[i] == JsonV::Text("Compilation"@);
            assert(text_in(l[i]) == Some("Compilation"@));
        }
    }
}

/// An answer is read exactly where its status is the text `ok`; of any other the service's own
/// message is handed on, or that there is none.
pub proof fn law_refused(v: JsonV)
    ensures
        refused(v) <==> field(v, "status"@) != Some(JsonV::Text("ok"@)),
        field(v, "error"@) matches Some(e) ==> (text_field(e, "message"@) matches Some(m) ==> reason_of(v)
            == "acoustid: "@ + m),
        field(v, "error"@) is None ==> reason_of(v) == "acoustid: unknown"@,
{
    reveal_strlit("acoustid: ");
    reveal_strlit("unknown");
    reveal_strlit("acoustid: unknown");
    assert("acoustid: "@ + "unknown"@ =~= "acoustid: unknown"@);
}

/// Seconds are to the nearest whole one, upwards from the middle.
pub proof fn law_rounded_secs(micros: int)
    ensures
        micros <= 0 ==> rounded_secs(micros) == 0,
        micros > 0 ==> -500_000 <= micros - rounded_secs(micros) * 1_000_000 < 500_000,
{
}

// ---- what is done with it ------------------------------------------------------------------

pub struct Opts {
    /// Write the tags of a match, else only report.
    pub apply: bool,
    /// Only say what would be written.
    pub dry_run: bool,
    /// The score from which on a match is applied.
    pub min_score: i64,
    /// Leave files alone that have artist, title and album.
    pub skip_tagged: bool,
}

/// What to do with a match.
#[derive(Clone, Copy, PartialEq, Eq, Structural, Debug)]
pub enum Verdict {
    /// Only report it.
    Report,
    /// Report it as too weak to apply.
    TooWeak,
    /// Report it as one that would be applied.
    WouldApply,
    /// Write its tags.
    Apply,
}

/// What to do with a match of this score.
pub open spec fn verdict_of(opts: Opts, score: i64) -> Verdict {
    if !opts.apply {
        Verdict::Report
    } else if score < opts.min_score {
        Verdict::TooWeak
    } else if opts.dry_run {
        Verdict::WouldApply
    } else {
        Verdict::Apply
    }
}

/// What to do with a match of this score.
pub fn verdict(opts: &Opts, score: i64) -> (r: Verdict)
    ensures
        r == verdict_of(*opts, score),
{
    if !opts.apply {
        Verdict::Report
    } else if score < opts.min_score {
        Verdict::TooWeak
    } else if opts.dry_run {
        Verdict::WouldApply
    } else {
        Verdict::Apply
    }
}

pub open spec fn filled(o: Option<Seq<char>>) -> bool {
    o matches Some(s) && s.len() > 0
}

fn is_filled(o: &Option<String>) -> (r: bool)
    ensures
        r == filled(o.deep_view()),
{
    match o {
        Some(s) => !s.as_str().is_empty(),
        None => false,
    }
}

/// Whether a file has artist, title and album, none of them empty.
pub fn has_all_tags(b: &Basic) -> (r: bool)
    ensures
        r == (filled(b.deep_view().artist) && filled(b.deep_view().title) && filled(b.deep_view().album)),
{
    is_filled(&b.artist) && is_filled(&b.title) && is_filled(&b.album)
}

/// Whether a file is left alone because it has its tags.
pub fn skips(opts: &Opts, b: &Basic) -> (r: bool)
    ensures
        r == (opts.skip_tagged && filled(b.deep_view().artist) && filled(b.deep_view().title) && filled(
            b.deep_view().album,
        )),
{
    opts.skip_tagged && has_all_tags(b)
}

/// What came of one file.
#[derive(Debug)]
pub enum Outcome {
    SkippedTagged,
    Matched { m: Match, applied: bool, low_score: bool },
    NoMatch,
    Failed,
}

/// What came of a file with a match. `written` says whether writing its tags succeeded,
/// where it was tried.
pub fn matched(m: Match, v: Verdict, written: bool) -> (r: Outcome)
    ensures
        r matches Outcome::Matched { m: k, applied, low_score } && k == m && applied == (v == Verdict::WouldApply || (v
            == Verdict::Apply && written)) && low_score == (v == Verdict::TooWeak),
{
    Outcome::Matched {
        m,
        applied: v == Verdict::WouldApply || (v == Verdict::Apply && written),
        low_score: v == Verdict::TooWeak,
    }
}

/// What came of one file, with its name.
#[derive(Debug)]
pub struct Tried {
    pub file: String,
    pub outcome: Outcome,
}

#[derive(Debug)]
pub struct FileResult {
    pub file: String,
    pub matched: Option<Match>,
}

#[verifier::ext_equal]
pub struct FileResultV {
    pub file: Seq<char>,
    pub matched: Option<MatchV>,
}

impl DeepView for FileResult {
    type V = FileResultV;

    open spec fn deep_view(&self) -> FileResultV {
        FileResultV { file: self.file@, matched: self.matched.deep_view() }
    }
}

#[derive(Debug)]
pub struct Report {
    pub total: usize,
    pub matched: usize,
    pub applied: usize,
    /// Matched, but too weakly to be applied.
    pub skipped_low_score: usize,
    /// Left alone because they have their tags.
    pub skipped_tagged: usize,
    pub no_match: usize,
    pub failed: usize,
    pub dry_run: bool,
    pub results: Vec<FileResult>,
}

/// What a file can be counted as.
#[derive(Clone, Copy, PartialEq, Eq, Structural)]
pub enum Kind {
    Matched,
    Applied,
    LowScore,
    Tagged,
    NoMatch,
    Failed,
}

pub open spec fn counts(o: Outcome, k: Kind) -> bool {
    match o {
        Outcome::SkippedTagged => k == Kind::Tagged,
        Outcome::Matched { applied, low_score, .. } => k == Kind::Matched || (k == Kind::Applied && applied) || (k
            == Kind::LowScore && low_score),
        Outcome::NoMatch => k == Kind::NoMatch,
        Outcome::Failed => k == Kind::Failed,
    }
}

pub open spec fn count_of(ts: Seq<Tried>, k: Kind, n: int) -> nat
    decreases n,
{
    if n <= 0 {
        0
    } else if counts(ts[n - 1].outcome, k) {
        count_of(ts, k, n - 1) + 1
    } else {
        count_of(ts, k, n - 1)
    }
}

/// The files that are listed: those that were looked up.
pub open spec fn results_of(ts: Seq<Tried>, n: int) -> Seq<FileResultV>
    decreases n,
{
    if n <= 0 {
        seq![]
    } else {
        let rest = results_of(ts, n - 1);
        match ts[n - 1].outcome {
            Outcome::Matched { m, .. } => rest.push(
                FileResultV { file: ts[n - 1].file@, matched: Some(m.deep_view()) },
            ),
            Outcome::NoMatch => rest.push(FileResultV { file: ts[n - 1].file@, matched: None }),
            _ => rest,
        }
    }
}

fn counted(o: &Outcome, k: Kind) -> (r: bool)
    ensures
        r == counts(*o, k),
{
    match o {
        Outcome::SkippedTagged => k == Kind::Tagged,
        Outcome::Matched { applied, low_score, .. } => k == Kind::Matched || (k == Kind::Applied && *applied) || (k
            == Kind::LowScore && *low_score),
        Outcome::NoMatch => k == Kind::NoMatch,
        Outcome::Failed => k == Kind::Failed,
    }
}

fn count(ts: &[Tried], k: Kind) -> (r: usize)
    ensures
        r == count_of(ts@, k, ts@.len() as int),
{
    let mut n: usize = 0;
    let mut i: usize = 0;
    while i < ts.len()
        invariant
            i <= ts@.len(),
            n <= i,
            n == count_of(ts@, k, i as int),
        decreases ts@.len() - i,
    {
        if counted(&ts[i].outcome, k) {
            n += 1;
        }
        i += 1;
    }
    n
}

fn copy_match(m: &Match) -> (r: Match)
    ensures
        r.deep_view() == m.deep_view(),
{
    Match { artist: m.artist.clone(), title: m.title.clone(), album: m.album.clone(), score: m.score }
}

/// The report on a run over these files, in their order.
pub fn summarize(tried: &[Tried], dry_run: bool) -> (r: Report)
    ensures
        r.total == tried@.len(),
        r.matched == count_of(tried@, Kind::Matched, tried@.len() as int),
        r.applied == count_of(tried@, Kind::Applied, tried@.len() as int),
        r.skipped_low_score == count_of(tried@, Kind::LowScore, tried@.len() as int),
        r.skipped_tagged == count_of(tried@, Kind::Tagged, tried@.len() as int),
        r.no_match == count_of(tried@, Kind::NoMatch, tried@.len() as int),
        r.failed == count_of(tried@, Kind::Failed, tried@.len() as int),
        r.dry_run == dry_run,
        r.results.deep_view() == results_of(tried@, tried@.len() as int),
{
    let mut results: Vec<FileResult> = Vec::new();
    let mut i: usize = 0;
    assert(results.deep_view() =~= results_of(tried@, 0));
    while i < tried.len()
        invariant
            i <= tried@.len(),
            results.deep_view() == results_of(tried@, i as int),
        decreases tried@.len() - i,
    {
        let ghost before = results.deep_view();
        match &tried[i].outcome {
            Outcome::Matched { m, .. } => {
                results.push(FileResult { file: tried[i].file.clone(), matched: Some(copy_match(m)) });
                assert(results.deep_view() =~= before.push(
                    FileResultV { file: tried@[i as int].file@, matched: Some(m.deep_view()) },
                ));
            },
            Outcome::NoMatch => {
                results.push(FileResult { file: tried[i].file.clone(), matched: None });
                assert(results.deep_view() =~= before.push(
                    FileResultV { file: tried@[i as int].file@, matched: None },
                ));
            },
            _ => {},
        }
        i += 1;
    }
    Report {
        total: tried.len(),
        matched: count(tried, Kind::Matched),
        applied: count(tried, Kind::Applied),
        skipped_low_score: count(tried, Kind::LowScore),
        skipped_tagged: count(tried, Kind::Tagged),
        no_match: count(tried, Kind::NoMatch),
        failed: count(tried, Kind::Failed),
        dry_run,
        results,
    }
}

/// Every file is counted once: it matched, had its tags, had no match, or failed.
pub proof fn law_counts_add_up(ts: Seq<Tried>, n: int)
    requires
        0 <= n <= ts.len(),
    ensures
        count_of(ts, Kind::Matched, n) + count_of(ts, Kind::Tagged, n) + count_of(ts, Kind::NoMatch, n) + count_of(
            ts,
            Kind::Failed,
            n,
        ) == n,
        count_of(ts, Kind::Applied, n) <= count_of(ts, Kind::Matched, n),
        count_of(ts, Kind::LowScore, n) <= count_of(ts, Kind::Matched, n),
    decreases n,
{
    if n > 0 {
        law_counts_add_up(ts, n - 1);
    }
}

/// A dry run shows exactly what would be written: a match would be applied in it where it is
/// applied without it, and every other match is treated alike.
pub proof fn law_dry_run_shows(apply: bool, min_score: i64, skip_tagged: bool, score: i64)
    ensures
        ({
            let dry = verdict_of(Opts { apply, dry_run: true, min_score, skip_tagged }, score);
            let full = verdict_of(Opts { apply, dry_run: false, min_score, skip_tagged }, score);
            &&& dry == Verdict::WouldApply <==> full == Verdict::Apply
            &&& full != Verdict::Apply ==> dry == full
        }),
{
}

/// What is written is strong enough and was asked for: tags are only written where that
/// was asked for, in no dry run, and where the score reaches the least one.
pub proof fn law_weak_never_applied(opts: Opts, score: i64)
    ensures
        verdict_of(opts, score) == Verdict::Apply <==> opts.apply && !opts.dry_run && score >= opts.min_score,
{
}

/// What is counted is exactly the files that came out so: the matched ones, of them those that
/// were applied and those that were too weak, those left alone, those without a match, and
/// those that failed.
pub proof fn law_counts(ts: Seq<Tried>)
    ensures
        ({
            let n = ts.len() as int;
            &&& count_of(ts, Kind::Matched, n) == ts.filter(|t: Tried| t.outcome is Matched).len()
            &&& count_of(ts, Kind::Applied, n) == ts.filter(
                |t: Tried| t.outcome matches Outcome::Matched { applied, .. } && applied,
            ).len()
            &&& count_of(ts, Kind::LowScore, n) == ts.filter(
                |t: Tried| t.outcome matches Outcome::Matched { low_score, .. } && low_score,
            ).len()
            &&& count_of(ts, Kind::Tagged, n) == ts.filter(|t: Tried| t.outcome is SkippedTagged).len()
            &&& count_of(ts, Kind::NoMatch, n) == ts.filter(|t: Tried| t.outcome is NoMatch).len()
            &&& count_of(ts, Kind::Failed, n) == ts.filter(|t: Tried| t.outcome is Failed).len()
        }),
{
    lemma_counts(ts, ts.len() as int);
    assert(ts.take(ts.len() as int) =~= ts);
}

proof fn lemma_counts(ts: Seq<Tried>, n: int)
    requires
        0 <= n <= ts.len(),
    ensures
        ({
            let t = ts.take(n);
            &&& count_of(ts, Kind::Matched, n) == t.filter(|t: Tried| t.outcome is Matched).len()
            &&& count_of(ts, Kind::Applied, n) == t.filter(
                |t: Tried| t.outcome matches Outcome::Matched { applied, .. } && applied,
            ).len()
            &&& count_of(ts, Kind::LowScore, n) == t.filter(
                |t: Tried| t.outcome matches Outcome::Matched { low_score, .. } && low_score,
            ).len()
            &&& count_of(ts, Kind::Tagged, n) == t.filter(|t: Tried| t.outcome is SkippedTagged).len()
            &&& count_of(ts, Kind::NoMatch, n) == t.filter(|t: Tried| t.outcome is NoMatch).len()
            &&& count_of(ts, Kind::Failed, n) == t.filter(|t: Tried| t.outcome is Failed).len()
        }),
    decreases n,
{
    reveal(Seq::filter);
    if n > 0 {
        lemma_counts(ts, n - 1);
        assert(ts.take(n).drop_last() =~= ts.take(n - 1));
        assert(ts.take(n).last() == ts[n - 1]);
    }
}

/// The files that are listed are those that were looked up, in their order, each with its match.
pub proof fn law_results(ts: Seq<Tried>)
    ensures
        results_of(ts, ts.len() as int) == ts.map_values(|x: Tried| match x.outcome {
                Outcome::Matched { m, .. } => seq![FileResultV { file: x.file@, matched: Some(m.deep_view()) }],
                Outcome::NoMatch => seq![FileResultV { file: x.file@, matched: None }],
                _ => seq![],
            }).flatten(),
{
    lemma_results(ts, ts.len() as int);
    assert(ts.take(ts.len() as int) =~= ts);
}

proof fn lemma_results(ts: Seq<Tried>, n: int)
    requires
        0 <= n <= ts.len(),
    ensures
        results_of(ts, n) == ts.take(n).map_values(|x: Tried| match x.outcome {
                Outcome::Matched { m, .. } => seq![FileResultV { file: x.file@, matched: Some(m.deep_view()) }],
                Outcome::NoMatch => seq![FileResultV { file: x.file@, matched: None }],
                _ => seq![],
            }).flatten(),
    decreases n,
{
    let all = ts.take(n).map_values(|x: Tried| match x.outcome {
                Outcome::Matched { m, .. } => seq![FileResultV { file: x.file@, matched: Some(m.deep_view()) }],
                Outcome::NoMatch => seq![FileResultV { file: x.file@, matched: None }],
                _ => seq![],
            });
    if n > 0 {
        lemma_results(ts, n - 1);
        let before = ts.take(n - 1).map_values(|x: Tried| match x.outcome {
                Outcome::Matched { m, .. } => seq![FileResultV { file: x.file@, matched: Some(m.deep_view()) }],
                Outcome::NoMatch => seq![FileResultV { file: x.file@, matched: None }],
                _ => seq![],
            });
        assert(all =~= before.push(all[n - 1]));
        assert(ts.take(n)[n - 1] == ts[n - 1]);
        lemma_flatten_push(before, all[n - 1]);
        assert(results_of(ts, n) =~= before.flatten() + all[n - 1]);
    } else {
        assert(all =~= seq![]);
        assert(all.flatten() =~= seq![]);
    }
}

/// Two lookups are never less than 350 milliseconds apart, and no lookup waits longer than that
/// asks for; the first does not wait.
pub proof fn law_wait(since: u64)
    ensures
        wait_of(None) == 0,
        wait_of(Some(since)) >= 0,
        wait_of(Some(since)) + since >= 350,
        wait_of(Some(since)) > 0 ==> wait_of(Some(since)) + since == 350,
{
}

/// A lookup sends the key of the application, the length in seconds, and the fingerprint, each under
/// its own name, and asks for recordings and their release groups.
pub proof fn law_form(key: Seq<char>, duration: nat, fp: Seq<char>)
    ensures
        form_of(key, duration, fp).len() == 4,
        form_of(key, duration, fp).contains(("client"@, key)),
        form_of(key, duration, fp).contains(("duration"@, decimal(duration))),
        form_of(key, duration, fp).contains(("fingerprint"@, fp)),
        form_of(key, duration, fp).contains(("meta"@, "recordings releasegroups"@)),
{
    let f = form_of(key, duration, fp);
    assert(f[0] == ("client"@, key));
    assert(f[1] == ("duration"@, decimal(duration)));
    assert(f[2] == ("fingerprint"@, fp));
    assert(f[3] == ("meta"@, "recordings releasegroups"@));
}

} // verus!
