//! Lyrics: finding them, keeping the best ones, and writing them beside or into a track.
//!
//! Lyrics come in tiers: none, plain, generated (timed by alignment, and marked), and
//! synced from a trusted source. What is there is only replaced by something better.
use vstd::prelude::*;
use vstd::utf8::{decode_utf8, encode_utf8, valid_utf8};
use crate::covers::{album_key, norm_album};
use crate::json::{Json, JsonV, flag_field, is_field, json_value, list_field, micros_field, parse, text_field};
use crate::sort::{
    arrange, arranged, key_ints, keys_ints, law_sorted, lemma_order_exists, lemma_order_len, less, order_of,
    place_ints, sort_order,
};
use crate::tags::{
    clear_instrumental_mark, clear_lyrics, is_marked, law_mark, set_instrumental_mark, with_mark, Tag, TagV,
};
use crate::text::{
    all_digits, ascii_digit, ascii_lower, ascii_lowered, blank, cat, cat3, chars_of, contains, contains_text,
    decimal, decimal_text, digits_value, drop_cr, ends, ends_with, first_of, is_blank, is_space, law_decimal,
    law_nearest, lemma_first_of, lemma_flatten_push, lemma_skip, lines, lines_from, lines_of, lower_ascii,
    matches_at, nearest, push_bytes, push_text, skip_space, skip_space_chars, strip_end, text_from_utf8, trim,
    trim_front, trimmed, without_end,
};

verus! {

// ---- tiers -----------------------------------------------------------------------------

/// The end of the run of digits that begins at `i`.
pub open spec fn digits_end(s: Seq<char>, i: int) -> int
    decreases s.len() - i,
{
    if i < 0 || i >= s.len() || !ascii_digit(s[i]) {
        i
    } else {
        digits_end(s, i + 1)
    }
}

/// A line that starts, after white space, with a bracket, digits and a colon.
pub open spec fn timed_line(l: Seq<char>) -> bool {
    let t = trim_front(l);
    &&& t.len() > 0
    &&& t[0] == '['
    &&& 1 < digits_end(t, 1) < t.len()
    &&& t[digits_end(t, 1)] == ':'
}

/// Lyrics with a time on at least one line.
pub open spec fn synced_text(s: Seq<char>) -> bool {
    exists|i: int| 0 <= i < lines_of(s).len() && timed_line(#[trigger] lines_of(s)[i])
}

/// A file of lyrics with a time on at least one line.
pub open spec fn synced_bytes(b: Seq<u8>) -> bool {
    valid_utf8(b) && synced_text(decode_utf8(b))
}

fn line_is_timed(l: &str) -> (r: bool)
    ensures
        r == timed_line(l@),
{
    let c = chars_of(l);
    let lo = skip_space_chars(&c, 0);
    let ghost t = trim_front(l@);
    proof {
        lemma_skip(l@, 0);
        assert(forall|i: int| 0 <= i < t.len() ==> t[i] == c@[lo + i]);
    }
    if lo >= c.len() || c[lo] != '[' {
        return false;
    }
    let mut i: usize = lo + 1;
    while i < c.len() && '0' <= c[i] && c[i] <= '9'
        invariant
            lo < i <= c@.len(),
            c@ == l@,
            t == l@.subrange(lo as int, l@.len() as int),
            digits_end(t, 1) == digits_end(t, i - lo),
        decreases c@.len() - i,
    {
        assert(t[i - lo] == c@[i as int]);
        i += 1;
    }
    proof {
        if i < c@.len() {
            assert(t[i - lo] == c@[i as int]);
        }
    }
    i > lo + 1 && i < c.len() && c[i] == ':'
}

/// Whether lyrics have a time on at least one line.
pub fn is_synced_text(s: &str) -> (r: bool)
    ensures
        r == synced_text(s@),
{
    let ls = lines(s);
    let ghost lv = ls.deep_view();
    let mut i: usize = 0;
    while i < ls.len()
        invariant
            i <= ls@.len(),
            lv == ls.deep_view(),
            lv == lines_of(s@),
            forall|k: int| 0 <= k < i ==> !timed_line(#[trigger] lv[k]),
        decreases ls@.len() - i,
    {
        assert(lv[i as int] == ls@[i as int]@);
        if line_is_timed(ls[i].as_str()) {
            assert(timed_line(lines_of(s@)[i as int]));
            return true;
        }
        i += 1;
    }
    false
}

/// Whether a file of lyrics has a time on at least one line. Tags such as `[ar:…]`
/// start with a letter and do not count.
pub fn is_synced(lrc: &[u8]) -> (r: bool)
    ensures
        r == synced_bytes(lrc@),
{
    match text_from_utf8(lrc) {
        Some(s) => is_synced_text(s.as_str()),
        None => false,
    }
}

/// The line that marks lyrics which were generated by alignment.
pub const ALIGN_MARKER: &'static str = "[re:amdl-align]";

/// Lyrics that were generated.
pub open spec fn generated_text(s: Seq<char>) -> bool {
    contains_text(s, ALIGN_MARKER@)
}

/// Whether lyrics were generated.
pub fn is_generated(text: &str) -> (r: bool)
    ensures
        r == generated_text(text@),
{
    contains(text, ALIGN_MARKER)
}

/// A sidecar that a synced version from a source would improve: one that is plain, or
/// one that was generated.
pub open spec fn improvable(b: Seq<u8>) -> bool {
    !synced_bytes(b) || generated_text(decode_utf8(b))
}

fn is_improvable(lrc: &[u8]) -> (r: bool)
    ensures
        r == improvable(lrc@),
{
    match text_from_utf8(lrc) {
        Some(s) => !is_synced_text(s.as_str()) || is_generated(s.as_str()),
        None => true,
    }
}

// ---- instrumentals ---------------------------------------------------------------------

/// A title that says outright that the track is instrumental.
pub open spec fn instrumental_title(title: Seq<char>) -> bool {
    let t = ascii_lowered(title);
    ||| contains_text(t, "(instrumental"@)
    ||| contains_text(t, "[instrumental"@)
    ||| ends_with(t, "- instrumental"@)
    ||| ends_with(t, "- instrumental version"@)
}

/// Whether a title says outright that the track is instrumental. Vague words such as
/// intro or interlude do not count: the answer is stamped on the file.
pub fn title_says_instrumental(title: &str) -> (r: bool)
    ensures
        r == instrumental_title(title@),
{
    let t = lower_ascii(title);
    contains(t.as_str(), "(instrumental") || contains(t.as_str(), "[instrumental") || ends(
        t.as_str(),
        "- instrumental",
    ) || ends(t.as_str(), "- instrumental version")
}

// ---- embedding -------------------------------------------------------------------------

/// Embedding `candidate` over `current` is allowed: nothing is there, or it differs and
/// is timed where the current one is not, or it differs and is forced.
pub open spec fn embeds(current: Option<Seq<char>>, candidate: Seq<char>, force: bool) -> bool {
    match current {
        None => true,
        Some(cur) => cur != candidate && (force || (!synced_text(cur) && synced_text(candidate))),
    }
}

/// Whether to write an embedded lyric.
pub fn should_embed(current: Option<&str>, candidate: &str, force: bool) -> (r: bool)
    ensures
        r == embeds(current.deep_view(), candidate@, force),
{
    match current {
        None => true,
        Some(cur) => {
            if crate::text::same(cur, candidate) {
                false
            } else if force {
                true
            } else {
                !is_synced_text(cur) && is_synced_text(candidate)
            }
        },
    }
}

/// Embedding never downgrades: without force, timed lyrics stay as they are.
pub proof fn law_embed_never_downgrades(current: Seq<char>, candidate: Seq<char>)
    requires
        synced_text(current),
    ensures
        !embeds(Some(current), candidate, false),
{
}

/// Embedding settles: what was embedded is not embedded again, forced or not.
pub proof fn law_embed_settles(candidate: Seq<char>, force: bool)
    ensures
        !embeds(Some(candidate), candidate, force),
{
}

/// Lyrics are embedded where there are none, where timed ones replace others that are not, and,
/// where it is forced, in the place of any that differ; plain ones replace nothing unasked.
pub proof fn law_embed_when(current: Seq<char>, candidate: Seq<char>, force: bool)
    ensures
        embeds(None, candidate, force),
        !synced_text(current) && synced_text(candidate) ==> embeds(Some(current), candidate, force),
        current != candidate ==> embeds(Some(current), candidate, true),
        !synced_text(candidate) ==> !embeds(Some(current), candidate, false),
{
}

/// A line is timed exactly where it is white space, an opening bracket, one digit at least, and
/// a colon, with anything behind.
pub proof fn law_timed_line(l: Seq<char>)
    ensures
        timed_line(l) <==> exists|a: Seq<char>, d: Seq<char>, rest: Seq<char>|
            is_blank(a) && all_digits(d) && d.len() > 0 && l == #[trigger] (a + seq!['['] + d + seq![':'] + rest),
{
    lemma_skip(l, 0);
    let i = skip_space(l, 0);
    let t = trim_front(l);
    if timed_line(l) {
        let e = digits_end(t, 1);
        lemma_digits_run(t, 1);
        let a = l.take(i);
        let d = t.subrange(1, e);
        let rest = t.skip(e + 1);
        assert(l =~= a + seq!['['] + d + seq![':'] + rest);
        assert forall|k: int| 0 <= k < a.len() implies is_space(#[trigger] a[k]) by {
            assert(a[k] == l[k]);
        }
        assert forall|k: int| 0 <= k < d.len() implies ascii_digit(#[trigger] d[k]) by {
            assert(d[k] == t[k + 1]);
        }
    }
    if exists|a: Seq<char>, d: Seq<char>, rest: Seq<char>|
        is_blank(a) && all_digits(d) && d.len() > 0 && l == #[trigger] (a + seq!['['] + d + seq![':'] + rest) {
        let (a, d, rest) = choose|a: Seq<char>, d: Seq<char>, rest: Seq<char>|
            is_blank(a) && all_digits(d) && d.len() > 0 && l == #[trigger] (a + seq!['['] + d + seq![':'] + rest);
        let n = a.len() as int;
        assert(l[n] == '[');
        assert forall|k: int| 0 <= k < n implies is_space(#[trigger] l[k]) by {
            assert(l[k] == a[k]);
        }
        assert(i == n);
        let e = 1 + d.len() as int;
        assert(t =~= seq!['['] + d + seq![':'] + rest);
        assert forall|k: int| 1 <= k < e implies ascii_digit(#[trigger] t[k]) by {
            assert(t[k] == d[k - 1]);
        }
        assert(t[e] == ':');
        lemma_digits_end(t, 1, e);
    }
}

proof fn lemma_digits_run(s: Seq<char>, i: int)
    requires
        0 <= i <= s.len(),
    ensures
        i <= digits_end(s, i) <= s.len(),
        forall|k: int| i <= k < digits_end(s, i) ==> ascii_digit(#[trigger] s[k]),
    decreases s.len() - i,
{
    if i < s.len() && ascii_digit(s[i]) {
        lemma_digits_run(s, i + 1);
    }
}

/// A title says that a track is instrumental in whatever case, and only with that word in it:
/// behind an opening bracket anywhere, or behind a dash at the end.
pub proof fn law_instrumental_title(a: Seq<char>, b: Seq<char>)
    ensures
        instrumental_title(a) == instrumental_title(ascii_lowered(a)),
        instrumental_title(a + "(instrumental"@ + b),
        instrumental_title(a + "[instrumental"@ + b),
        instrumental_title(a + "- instrumental"@),
        instrumental_title(a + "- instrumental version"@),
        instrumental_title(a) ==> contains_text(ascii_lowered(a), "instrumental"@),
{
    reveal_strlit("(instrumental");
    reveal_strlit("[instrumental");
    reveal_strlit("- instrumental");
    reveal_strlit("- instrumental version");
    reveal_strlit("instrumental");
    assert(ascii_lowered(ascii_lowered(a)) =~= ascii_lowered(a));
    assert(ascii_lowered("(instrumental"@) =~= "(instrumental"@);
    assert(ascii_lowered("[instrumental"@) =~= "[instrumental"@);
    assert(ascii_lowered("- instrumental"@) =~= "- instrumental"@);
    assert(ascii_lowered("- instrumental version"@) =~= "- instrumental version"@);
    assert("(instrumental"@.subrange(1, 13) =~= "instrumental"@);
    assert("[instrumental"@.subrange(1, 13) =~= "instrumental"@);
    assert("- instrumental"@.subrange(2, 14) =~= "instrumental"@);
    assert("- instrumental version"@.subrange(2, 14) =~= "instrumental"@);
    lemma_lowered_at(a, "(instrumental"@, b);
    lemma_lowered_at(a, "[instrumental"@, b);
    lemma_lowered_at(a, "- instrumental"@, seq![]);
    lemma_lowered_at(a, "- instrumental version"@, seq![]);
    assert(a + "- instrumental"@ + seq![] =~= a + "- instrumental"@);
    assert(a + "- instrumental version"@ + seq![] =~= a + "- instrumental version"@);
    let t = ascii_lowered(a);
    let w = "instrumental"@;
    if contains_text(t, "(instrumental"@) {
        let i = choose|i: int| matches_at(t, "(instrumental"@, i);
        lemma_within(t, "(instrumental"@, i, w, 1);
    }
    if contains_text(t, "[instrumental"@) {
        let i = choose|i: int| matches_at(t, "[instrumental"@, i);
        lemma_within(t, "[instrumental"@, i, w, 1);
    }
    if ends_with(t, "- instrumental"@) {
        lemma_within(t, "- instrumental"@, t.len() - "- instrumental"@.len(), w, 2);
    }
    if ends_with(t, "- instrumental version"@) {
        lemma_within(t, "- instrumental version"@, t.len() - "- instrumental version"@.len(), w, 2);
    }
}

proof fn lemma_lowered_at(a: Seq<char>, p: Seq<char>, b: Seq<char>)
    requires
        ascii_lowered(p) == p,
    ensures
        matches_at(ascii_lowered(a + p + b), p, a.len() as int),
{
    let s = a + p + b;
    let n = a.len() as int;
    assert(ascii_lowered(s).subrange(n, n + p.len()) =~= p) by {
        assert forall|k: int| 0 <= k < p.len() implies #[trigger] ascii_lowered(s)[n + k] == p[k] by {
            assert(s[n + k] == p[k]);
            assert(ascii_lowered(p)[k] == ascii_lower(p[k]));
        }
    }
}

proof fn lemma_within(t: Seq<char>, p: Seq<char>, i: int, w: Seq<char>, k: int)
    requires
        matches_at(t, p, i),
        0 <= k,
        k + w.len() <= p.len(),
        p.subrange(k, k + w.len()) == w,
    ensures
        contains_text(t, w),
{
    assert(t.subrange(i + k, i + k + w.len()) =~= w) by {
        assert forall|x: int| 0 <= x < w.len() implies #[trigger] t[i + k + x] == w[x] by {
            assert(p[k + x] == t.subrange(i, i + p.len())[k + x]);
            assert(p.subrange(k, k + w.len())[x] == p[k + x]);
        }
    }
    assert(matches_at(t, w, i + k));
}

// ---- what a source answers ---------------------------------------------------------------

/// What a lyrics source has for a track.
#[derive(Debug)]
pub enum Fetched {
    Synced(String),
    Plain(String),
    Instrumental,
    NotFound,
}

#[verifier::ext_equal]
pub enum FetchedV {
    Synced(Seq<char>),
    Plain(Seq<char>),
    Instrumental,
    NotFound,
}

impl DeepView for Fetched {
    type V = FetchedV;

    open spec fn deep_view(&self) -> FetchedV {
        match *self {
            Fetched::Synced(s) => FetchedV::Synced(s@),
            Fetched::Plain(s) => FetchedV::Plain(s@),
            Fetched::Instrumental => FetchedV::Instrumental,
            Fetched::NotFound => FetchedV::NotFound,
        }
    }
}

/// How rich an answer is: synced, plain, instrumental, nothing.
pub open spec fn richness(f: FetchedV) -> int {
    match f {
        FetchedV::Synced(_) => 3,
        FetchedV::Plain(_) => 2,
        FetchedV::Instrumental => 1,
        FetchedV::NotFound => 0,
    }
}

/// The richer of two answers; the first where they are equally rich.
pub open spec fn richer(a: FetchedV, b: FetchedV) -> FetchedV {
    if richness(b) > richness(a) {
        b
    } else {
        a
    }
}

fn rank(f: &Fetched) -> (r: u8)
    ensures
        r == richness(f.deep_view()),
{
    match f {
        Fetched::Synced(_) => 3,
        Fetched::Plain(_) => 2,
        Fetched::Instrumental => 1,
        Fetched::NotFound => 0,
    }
}

/// The richer of two answers; ties keep `a`, the primary source's.
pub fn best_of(a: Fetched, b: Fetched) -> (r: Fetched)
    ensures
        r.deep_view() == richer(a.deep_view(), b.deep_view()),
{
    if rank(&b) > rank(&a) {
        b
    } else {
        a
    }
}

/// A merge is as rich as the richer of the two answers, is one of them, and is the
/// first unless the second is richer.
pub proof fn law_best_of(a: FetchedV, b: FetchedV)
    ensures
        richness(richer(a, b)) >= richness(a),
        richness(richer(a, b)) >= richness(b),
        richer(a, b) == a || richer(a, b) == b,
        richness(a) >= richness(b) ==> richer(a, b) == a,
        a is Synced ==> richer(a, b) == a,
        b is Synced && a !is Synced ==> richer(a, b) == b,
        b is Plain && (a is Instrumental || a is NotFound) ==> richer(a, b) == b,
        b is Instrumental && a is NotFound ==> richer(a, b) == b,
        b is NotFound ==> richer(a, b) == a,
{
}

/// What one entry of the primary service says.
pub open spec fn classified(v: JsonV) -> FetchedV {
    if flag_field(v, "instrumental"@) {
        FetchedV::Instrumental
    } else if text_field(v, "syncedLyrics"@) matches Some(s) && !is_blank(s) {
        FetchedV::Synced(text_field(v, "syncedLyrics"@)->0)
    } else if text_field(v, "plainLyrics"@) matches Some(s) && !is_blank(s) {
        FetchedV::Plain(text_field(v, "plainLyrics"@)->0)
    } else {
        FetchedV::NotFound
    }
}

/// What one entry of the primary service says: that the track is instrumental, its
/// synced lyrics, or its plain ones.
pub fn classify(v: &Json) -> (r: Fetched)
    ensures
        r.deep_view() == classified(v.deep_view()),
{
    if v.flag_at("instrumental") {
        return Fetched::Instrumental;
    }
    if let Some(s) = v.text_at("syncedLyrics") {
        if !blank(s) {
            return Fetched::Synced(s.to_string());
        }
    }
    if let Some(s) = v.text_at("plainLyrics") {
        if !blank(s) {
            return Fetched::Plain(s.to_string());
        }
    }
    Fetched::NotFound
}

/// What the exact lookup answers with this body, `None` where the body is no JSON.
pub open spec fn lookup_answer(v: Option<JsonV>) -> Option<FetchedV> {
    match v {
        Some(x) => Some(classified(x)),
        None => None,
    }
}

/// What the exact lookup answers with this body. `None`: it is no JSON, and the search
/// comes next.
pub fn parse_one(body: &str) -> (r: Option<Fetched>)
    ensures
        r.deep_view() == lookup_answer(json_value(body@)),
{
    match parse(body) {
        Some(v) => Some(classify(&v)),
        None => None,
    }
}

/// How far apart two lengths of one recording may be, in seconds.
pub const DURATION_TOL: u64 = 3;

/// A search hit is about this track: its length agrees, or, where one of the lengths is
/// not known, its album does.
pub open spec fn hit_agrees(v: JsonV, album: Option<Seq<char>>, dur: Option<u64>) -> bool {
    match (dur, micros_field(v, "duration"@)) {
        (Some(d), Some(c)) => -(DURATION_TOL * 1_000_000) <= d * 1_000_000 - c <= DURATION_TOL * 1_000_000,
        _ => match (album, text_field(v, "albumName"@)) {
            (Some(a), Some(b)) => album_key(a).len() > 0 && album_key(a) == album_key(b),
            _ => false,
        },
    }
}

/// The first hit from `i` on that is about this track and has something to say.
pub open spec fn search_from(l: Seq<JsonV>, album: Option<Seq<char>>, dur: Option<u64>, i: int) -> FetchedV
    decreases l.len() - i,
{
    if i < 0 || i >= l.len() {
        FetchedV::NotFound
    } else if hit_agrees(l[i], album, dur) && classified(l[i]) !is NotFound {
        classified(l[i])
    } else {
        search_from(l, album, dur, i + 1)
    }
}

/// What the search answers.
pub open spec fn search_answer(v: Option<JsonV>, album: Option<Seq<char>>, dur: Option<u64>) -> FetchedV {
    match v {
        Some(JsonV::List(l)) => search_from(l, album, dur, 0),
        _ => FetchedV::NotFound,
    }
}

fn agrees(v: &Json, album: Option<&str>, dur: Option<u64>) -> (r: bool)
    ensures
        r == hit_agrees(v.deep_view(), album.deep_view(), dur),
{
    match (dur, v.micros_at("duration")) {
        (Some(d), Some(c)) => {
            let diff: i128 = d as i128 * 1_000_000 - c as i128;
            let tol: i128 = DURATION_TOL as i128 * 1_000_000;
            -tol <= diff && diff <= tol
        },
        _ => match (album, v.text_at("albumName")) {
            (Some(a), Some(b)) => {
                let ka = norm_album(a);
                !ka.as_str().is_empty() && ka == norm_album(b)
            },
            _ => false,
        },
    }
}

/// The first hit that is about this track and has something to say.
pub fn pick_hit(v: &Json, album: Option<&str>, dur: Option<u64>) -> (r: Fetched)
    ensures
        r.deep_view() == search_answer(Some(v.deep_view()), album.deep_view(), dur),
{
    match v.list() {
        None => Fetched::NotFound,
        Some(l) => {
            let ghost lv = l.deep_view();
            let mut i: usize = 0;
            while i < l.len()
                invariant
                    i <= l@.len(),
                    lv == l.deep_view(),
                    v.deep_view() == JsonV::List(lv),
                    search_answer(Some(v.deep_view()), album.deep_view(), dur) == search_from(
                        lv,
                        album.deep_view(),
                        dur,
                        i as int,
                    ),
                decreases l@.len() - i,
            {
                assert(lv[i as int] == l@[i as int].deep_view());
                if agrees(&l[i], album, dur) {
                    match classify(&l[i]) {
                        Fetched::NotFound => {},
                        other => return other,
                    }
                }
                i += 1;
            }
            Fetched::NotFound
        },
    }
}

/// What the search answers with this body.
pub fn parse_search(body: &str, album: Option<&str>, dur: Option<u64>) -> (r: Fetched)
    ensures
        r.deep_view() == search_answer(json_value(body@), album.deep_view(), dur),
{
    match parse(body) {
        Some(v) => pick_hit(&v, album, dur),
        None => Fetched::NotFound,
    }
}

/// The trimmed lyrics of an entry of the second service, where there are any.
pub open spec fn lrcapi_lyrics(v: JsonV) -> Option<Seq<char>> {
    match text_field(v, "lyrics"@) {
        Some(s) if trimmed(s).len() > 0 => Some(trimmed(s)),
        _ => None,
    }
}

/// The first synced lyrics from `i` on; else `plain`, or the first plain ones.
pub open spec fn lrcapi_from(l: Seq<JsonV>, plain: Option<Seq<char>>, i: int) -> FetchedV
    decreases l.len() - i,
{
    if i < 0 || i >= l.len() {
        match plain {
            Some(p) => FetchedV::Plain(p),
            None => FetchedV::NotFound,
        }
    } else {
        match lrcapi_lyrics(l[i]) {
            None => lrcapi_from(l, plain, i + 1),
            Some(s) => if synced_text(s) {
                FetchedV::Synced(s)
            } else {
                lrcapi_from(
                    l,
                    if plain is Some {
                        plain
                    } else {
                        Some(s)
                    },
                    i + 1,
                )
            },
        }
    }
}

/// What the second service answers.
pub open spec fn lrcapi_answer(v: Option<JsonV>) -> FetchedV {
    match v {
        Some(JsonV::List(l)) => lrcapi_from(l, None, 0),
        _ => FetchedV::NotFound,
    }
}

/// The first synced lyrics in the entries, else the first plain ones.
pub fn pick_lrcapi(v: &Json) -> (r: Fetched)
    ensures
        r.deep_view() == lrcapi_answer(Some(v.deep_view())),
{
    match v.list() {
        None => Fetched::NotFound,
        Some(l) => {
            let ghost lv = l.deep_view();
            let mut plain: Option<String> = None;
            let mut i: usize = 0;
            while i < l.len()
                invariant
                    i <= l@.len(),
                    lv == l.deep_view(),
                    v.deep_view() == JsonV::List(lv),
                    lrcapi_answer(Some(v.deep_view())) == lrcapi_from(lv, plain.deep_view(), i as int),
                decreases l@.len() - i,
            {
                assert(lv[i as int] == l@[i as int].deep_view());
                if let Some(s) = l[i].text_at("lyrics") {
                    let t = trim(s);
                    if !t.as_str().is_empty() {
                        if is_synced_text(t.as_str()) {
                            return Fetched::Synced(t);
                        }
                        if plain.is_none() {
                            plain = Some(t);
                        }
                    }
                }
                i += 1;
            }
            match plain {
                Some(p) => Fetched::Plain(p),
                None => Fetched::NotFound,
            }
        },
    }
}

/// What the second service answers with this body: the first synced lyrics, else the
/// first plain ones, else nothing.
pub fn parse_lrcapi(body: &str) -> (r: Fetched)
    ensures
        r.deep_view() == lrcapi_answer(json_value(body@)),
{
    match parse(body) {
        Some(v) => pick_lrcapi(&v),
        None => Fetched::NotFound,
    }
}

/// A text with something in it that is no white space.
pub open spec fn spoken(s: Option<Seq<char>>) -> bool {
    s matches Some(t) && exists|i: int| 0 <= i < t.len() && !is_space(#[trigger] t[i])
}

/// What an entry is taken as: where it is flagged, as instrumental; else with synced lyrics that
/// are not blank, as synced with exactly those, whatever plain ones it has; else with plain ones
/// that are not blank, as plain with exactly those; else as nothing.
pub proof fn law_classified(v: JsonV)
    ensures
        is_field(v, "instrumental"@, JsonV::Bool(true)) ==> classified(v) == FetchedV::Instrumental,
        !is_field(v, "instrumental"@, JsonV::Bool(true)) ==> {
            &&& spoken(text_field(v, "syncedLyrics"@)) ==> classified(v) == FetchedV::Synced(
                text_field(v, "syncedLyrics"@)->0,
            )
            &&& !spoken(text_field(v, "syncedLyrics"@)) && spoken(text_field(v, "plainLyrics"@)) ==> classified(v)
                == FetchedV::Plain(text_field(v, "plainLyrics"@)->0)
            &&& !spoken(text_field(v, "syncedLyrics"@)) && !spoken(text_field(v, "plainLyrics"@)) ==> classified(v)
                == FetchedV::NotFound
        },
{
    lemma_spoken(text_field(v, "syncedLyrics"@));
    lemma_spoken(text_field(v, "plainLyrics"@));
}

proof fn lemma_spoken(s: Option<Seq<char>>)
    ensures
        s matches Some(t) ==> (spoken(s) <==> !is_blank(t)),
{
    if let Some(t) = s {
        if !is_blank(t) {
            let i = choose|i: int| 0 <= i < t.len() && !is_space(#[trigger] t[i]);
            assert(!is_space(t[i]));
        }
    }
}

/// A hit is about the track: its length is no more than three seconds off; where one of the two
/// lengths is not known, its album agrees as albums are compared.
pub open spec fn about(v: JsonV, album: Option<Seq<char>>, dur: Option<u64>) -> bool {
    let length = micros_field(v, "duration"@);
    if dur is Some && length is Some {
        dur->0 * 1_000_000 <= length->0 + 3_000_000 && length->0 <= dur->0 * 1_000_000 + 3_000_000
    } else {
        album is Some && text_field(v, "albumName"@) is Some && album_key(album->0) == album_key(
            text_field(v, "albumName"@)->0,
        ) && album_key(album->0).len() > 0
    }
}

/// A hit is about the track and has something to say.
pub open spec fn tells(v: JsonV, album: Option<Seq<char>>, dur: Option<u64>) -> bool {
    about(v, album, dur) && classified(v) !is NotFound
}

/// A search takes the first hit that is about the track and has something to say, with what
/// that hit says, and nothing where there is none. The place of the hit is given, or the
/// number of hits.
pub proof fn law_search(l: Seq<JsonV>, album: Option<Seq<char>>, dur: Option<u64>) -> (k: int)
    ensures
        0 <= k <= l.len(),
        forall|j: int| 0 <= j < k ==> !tells(#[trigger] l[j], album, dur),
        k < l.len() ==> tells(l[k], album, dur) && search_answer(Some(JsonV::List(l)), album, dur) == classified(l[k]),
        k == l.len() ==> search_answer(Some(JsonV::List(l)), album, dur) is NotFound,
{
    lemma_search(l, album, dur, 0)
}

proof fn lemma_tells(v: JsonV, album: Option<Seq<char>>, dur: Option<u64>)
    ensures
        tells(v, album, dur) <==> hit_agrees(v, album, dur) && classified(v) !is NotFound,
{
}

proof fn lemma_search(l: Seq<JsonV>, album: Option<Seq<char>>, dur: Option<u64>, i: int) -> (k: int)
    requires
        0 <= i <= l.len(),
    ensures
        i <= k <= l.len(),
        forall|j: int| i <= j < k ==> !tells(#[trigger] l[j], album, dur),
        k < l.len() ==> tells(l[k], album, dur) && search_from(l, album, dur, i) == classified(l[k]),
        k == l.len() ==> search_from(l, album, dur, i) is NotFound,
    decreases l.len() - i,
{
    if i < l.len() {
        lemma_tells(l[i], album, dur);
        if tells(l[i], album, dur) {
            i
        } else {
            lemma_search(l, album, dur, i + 1)
        }
    } else {
        i
    }
}

/// The lyrics of an entry of the second service, which are there and are not blank: what the
/// entry has without the white space around it.
pub open spec fn entry_says(v: JsonV, t: Seq<char>) -> bool {
    text_field(v, "lyrics"@) matches Some(s) && t == trimmed(s) && t.len() > 0
}

/// The second service's answer is its first synced lyrics; only where no entry has any, its
/// first plain ones; and nothing where no entry says anything.
pub proof fn law_lrcapi(l: Seq<JsonV>)
    ensures
        match lrcapi_answer(Some(JsonV::List(l))) {
            FetchedV::Synced(t) => synced_text(t) && exists|k: int|
                0 <= k < l.len() && entry_says(#[trigger] l[k], t) && forall|j: int, u: Seq<char>|
                    0 <= j < k && #[trigger] entry_says(l[j], u) ==> !synced_text(u),
            FetchedV::Plain(t) => {
                &&& exists|k: int|
                    0 <= k < l.len() && entry_says(#[trigger] l[k], t) && forall|j: int, u: Seq<char>|
                        0 <= j < k ==> !#[trigger] entry_says(l[j], u)
                &&& forall|j: int, u: Seq<char>| 0 <= j < l.len() && #[trigger] entry_says(l[j], u) ==> !synced_text(u)
            },
            FetchedV::NotFound => forall|j: int, u: Seq<char>| 0 <= j < l.len() ==> !#[trigger] entry_says(l[j], u),
            FetchedV::Instrumental => false,
        },
{
    lemma_lrcapi(l, None, 0);
}

proof fn lemma_lrcapi(l: Seq<JsonV>, plain: Option<Seq<char>>, i: int)
    requires
        0 <= i <= l.len(),
        plain is None ==> forall|j: int, u: Seq<char>| 0 <= j < i ==> !#[trigger] entry_says(l[j], u),
        plain matches Some(p) ==> exists|k: int|
            0 <= k < i && entry_says(#[trigger] l[k], p) && forall|j: int, u: Seq<char>|
                0 <= j < k ==> !#[trigger] entry_says(l[j], u),
        forall|j: int, u: Seq<char>| 0 <= j < i && #[trigger] entry_says(l[j], u) ==> !synced_text(u),
    ensures
        match lrcapi_from(l, plain, i) {
            FetchedV::Synced(t) => synced_text(t) && exists|k: int|
                0 <= k < l.len() && entry_says(#[trigger] l[k], t) && forall|j: int, u: Seq<char>|
                    0 <= j < k && #[trigger] entry_says(l[j], u) ==> !synced_text(u),
            FetchedV::Plain(t) => {
                &&& exists|k: int|
                    0 <= k < l.len() && entry_says(#[trigger] l[k], t) && forall|j: int, u: Seq<char>|
                        0 <= j < k ==> !#[trigger] entry_says(l[j], u)
                &&& forall|j: int, u: Seq<char>| 0 <= j < l.len() && #[trigger] entry_says(l[j], u) ==> !synced_text(u)
            },
            FetchedV::NotFound => forall|j: int, u: Seq<char>| 0 <= j < l.len() ==> !#[trigger] entry_says(l[j], u),
            FetchedV::Instrumental => false,
        },
    decreases l.len() - i,
{
    if i < l.len() {
        match lrcapi_lyrics(l[i]) {
            None => {
                lemma_lrcapi(l, plain, i + 1);
            },
            Some(s) => {
                assert(entry_says(l[i], s));
                if !synced_text(s) {
                    lemma_lrcapi(
                        l,
                        if plain is Some {
                            plain
                        } else {
                            Some(s)
                        },
                        i + 1,
                    );
                }
            },
        }
    }
}

// ---- asking the sources ------------------------------------------------------------------

/// A lyrics source.
#[derive(Clone, Copy, PartialEq, Eq, Structural, Debug)]
pub enum Source {
    Lrclib,
    LrcApi,
}

/// An LrcApi server: its base address, and the key that goes into `Authorization`.
#[derive(Clone, Debug)]
pub struct LrcApi {
    pub url: String,
    pub key: String,
}

/// The second source, and whether it is asked first.
#[derive(Clone, Debug)]
pub struct Fallback {
    pub api: LrcApi,
    pub first: bool,
}

/// The source that is asked first, and the one that is asked next, if any. `first` is
/// whether the second source goes first, where there is one.
pub fn sources(first: Option<bool>) -> (r: (Source, Option<Source>))
    ensures
        r == (match first {
            None => (Source::Lrclib, None),
            Some(true) => (Source::LrcApi, Some(Source::Lrclib)),
            Some(false) => (Source::Lrclib, Some(Source::LrcApi)),
        }),
{
    match first {
        None => (Source::Lrclib, None),
        Some(true) => (Source::LrcApi, Some(Source::Lrclib)),
        Some(false) => (Source::Lrclib, Some(Source::LrcApi)),
    }
}

/// Whether the next source is asked: not where the first one had synced lyrics, which
/// nothing can improve on.
pub fn asks_next(primary: &Fetched) -> (r: bool)
    ensures
        r == (primary.deep_view() !is Synced),
{
    match primary {
        Fetched::Synced(_) => false,
        _ => true,
    }
}

/// Not asking further changes nothing: whatever the next source has, the answer would
/// be the same.
pub proof fn law_short_circuit(primary: FetchedV, next: FetchedV)
    requires
        primary is Synced,
    ensures
        richer(primary, next) == primary,
{
}

/// A query parameter.
pub type Param = (String, String);

/// The parameters of the exact lookup.
pub open spec fn lookup_params(
    artist: Seq<char>,
    title: Seq<char>,
    album: Option<Seq<char>>,
    dur: Option<u64>,
) -> Seq<(Seq<char>, Seq<char>)> {
    let base = seq![("artist_name"@, artist), ("track_name"@, title)];
    let with_album = match album {
        Some(a) => base.push(("album_name"@, a)),
        None => base,
    };
    match dur {
        Some(d) => with_album.push(("duration"@, decimal(d as nat))),
        None => with_album,
    }
}

/// The parameters of the exact lookup.
pub fn lookup_query(artist: &str, title: &str, album: Option<&str>, dur: Option<u64>) -> (r: Vec<Param>)
    ensures
        r.deep_view() == lookup_params(artist@, title@, album.deep_view(), dur),
{
    let mut v: Vec<Param> = Vec::new();
    v.push(("artist_name".to_string(), artist.to_string()));
    v.push(("track_name".to_string(), title.to_string()));
    assert(v.deep_view() =~= seq![("artist_name"@, artist@), ("track_name"@, title@)]);
    if let Some(a) = album {
        let ghost before = v.deep_view();
        v.push(("album_name".to_string(), a.to_string()));
        assert(v.deep_view() =~= before.push(("album_name"@, a@)));
    }
    if let Some(d) = dur {
        let ghost before = v.deep_view();
        v.push(("duration".to_string(), decimal_text(d)));
        assert(v.deep_view() =~= before.push(("duration"@, decimal(d as nat))));
    }
    v
}

/// The parameters of the search.
pub fn search_query(artist: &str, title: &str) -> (r: Vec<Param>)
    ensures
        r.deep_view() == seq![("track_name"@, title@), ("artist_name"@, artist@)],
{
    let mut v: Vec<Param> = Vec::new();
    v.push(("track_name".to_string(), title.to_string()));
    v.push(("artist_name".to_string(), artist.to_string()));
    assert(v.deep_view() =~= seq![("track_name"@, title@), ("artist_name"@, artist@)]);
    v
}

/// The parameters for the second service.
pub open spec fn lrcapi_params(artist: Seq<char>, title: Seq<char>, album: Option<Seq<char>>) -> Seq<
    (Seq<char>, Seq<char>),
> {
    let base = seq![("title"@, title), ("artist"@, artist)];
    match album {
        Some(a) => base.push(("album"@, a)),
        None => base,
    }
}

/// The parameters for the second service.
pub fn lrcapi_query(artist: &str, title: &str, album: Option<&str>) -> (r: Vec<Param>)
    ensures
        r.deep_view() == lrcapi_params(artist@, title@, album.deep_view()),
{
    let mut v: Vec<Param> = Vec::new();
    v.push(("title".to_string(), title.to_string()));
    v.push(("artist".to_string(), artist.to_string()));
    assert(v.deep_view() =~= seq![("title"@, title@), ("artist"@, artist@)]);
    if let Some(a) = album {
        let ghost before = v.deep_view();
        v.push(("album".to_string(), a.to_string()));
        assert(v.deep_view() =~= before.push(("album"@, a@)));
    }
    v
}

/// The address of the second service's lookup.
pub fn lrcapi_endpoint(url: &str) -> (r: String)
    ensures
        r@ == strip_end(url@, '/') + "/jsonapi"@,
{
    cat(without_end(url, '/').as_str(), "/jsonapi")
}

// ---- settling a track ----------------------------------------------------------------------

/// What a run does beyond filling gaps.
#[derive(Clone, Copy, Debug)]
pub struct Options {
    /// Replace a plain or generated sidecar where a source has a synced version.
    pub upgrade_synced: bool,
    /// Write the sidecar's lyrics into the audio file too.
    pub embed: bool,
    /// Embed even where it is no upgrade.
    pub force_embed: bool,
    /// Generate synced lyrics by alignment where no source has them.
    pub align: bool,
}

impl Default for Options {
    fn default() -> (r: Options)
        ensures
            r == (Options { upgrade_synced: false, embed: false, force_embed: false, align: false }),
    {
        Options { upgrade_synced: false, embed: false, force_embed: false, align: false }
    }
}

/// The first decision on a track, from its tags alone.
#[derive(Clone, Copy, PartialEq, Eq, Structural, Debug)]
pub enum Gate {
    /// It is marked as instrumental: nothing is looked up.
    Skip,
    /// Its title says that it is instrumental: stamp the mark, look nothing up.
    Mark,
    /// Go on.
    Pass,
}

/// The first decision on a track.
pub open spec fn gate_of(marked: bool, title: Option<Seq<char>>) -> Gate {
    if marked {
        Gate::Skip
    } else {
        match title {
            Some(t) if instrumental_title(t) => Gate::Mark,
            _ => Gate::Pass,
        }
    }
}

/// The first decision on a track: lyrics never land on an instrumental.
pub fn gate(marked: bool, title: Option<&str>) -> (r: Gate)
    ensures
        r == gate_of(marked, title.deep_view()),
{
    if marked {
        return Gate::Skip;
    }
    match title {
        Some(t) => if title_says_instrumental(t) {
            Gate::Mark
        } else {
            Gate::Pass
        },
        None => Gate::Pass,
    }
}

/// The state of the `.lrc` file beside a track.
#[derive(Debug)]
pub enum Sidecar {
    Absent,
    /// It is there and cannot be read: it is left strictly alone.
    Unreadable,
    Bytes(Vec<u8>),
}

/// Whether the sources are asked: where there is no sidecar, and where a run upgrades
/// and the sidecar can be improved.
pub open spec fn asks(side: Sidecar, opts: Options) -> bool {
    match side {
        Sidecar::Absent => true,
        Sidecar::Unreadable => false,
        Sidecar::Bytes(b) => opts.upgrade_synced && improvable(b@),
    }
}

/// Whether the sources are asked.
pub fn wants_fetch(side: &Sidecar, opts: Options) -> (r: bool)
    ensures
        r == asks(*side, opts),
{
    match side {
        Sidecar::Absent => true,
        Sidecar::Unreadable => false,
        Sidecar::Bytes(b) => opts.upgrade_synced && is_improvable(b.as_slice()),
    }
}

/// What to do about the sidecar.
#[derive(Debug)]
pub enum Action {
    /// Leave it, whatever it holds.
    Leave,
    /// Replace it with synced lyrics.
    Replace(String),
    /// Create it with synced lyrics.
    CreateSynced(String),
    /// Create it with plain lyrics.
    CreatePlain(String),
    /// Stamp the instrumental mark on the track.
    MarkInstrumental,
    /// Nothing was found; the track itself carries lyrics.
    UseEmbedded(String),
    /// Nothing was found.
    NotFound,
    /// The track lacks the artist or the title to ask with.
    NoMeta,
}

#[verifier::ext_equal]
pub enum ActionV {
    Leave,
    Replace(Seq<char>),
    CreateSynced(Seq<char>),
    CreatePlain(Seq<char>),
    MarkInstrumental,
    UseEmbedded(Seq<char>),
    NotFound,
    NoMeta,
}

impl DeepView for Action {
    type V = ActionV;

    open spec fn deep_view(&self) -> ActionV {
        match *self {
            Action::Leave => ActionV::Leave,
            Action::Replace(s) => ActionV::Replace(s@),
            Action::CreateSynced(s) => ActionV::CreateSynced(s@),
            Action::CreatePlain(s) => ActionV::CreatePlain(s@),
            Action::MarkInstrumental => ActionV::MarkInstrumental,
            Action::UseEmbedded(s) => ActionV::UseEmbedded(s@),
            Action::NotFound => ActionV::NotFound,
            Action::NoMeta => ActionV::NoMeta,
        }
    }
}

/// What to do about a sidecar in this state. `fetched` is what the sources answered,
/// `None` where they could not be asked; `embedded` is what the track itself carries.
pub open spec fn action_of(
    side: Sidecar,
    opts: Options,
    fetched: Option<FetchedV>,
    embedded: Option<Seq<char>>,
) -> ActionV {
    match side {
        Sidecar::Unreadable => ActionV::Leave,
        Sidecar::Bytes(b) => match fetched {
            Some(FetchedV::Synced(s)) if asks(side, opts) && encode_utf8(s) != b@ => ActionV::Replace(s),
            _ => ActionV::Leave,
        },
        Sidecar::Absent => match fetched {
            Some(FetchedV::Synced(s)) => ActionV::CreateSynced(s),
            Some(FetchedV::Plain(s)) => ActionV::CreatePlain(s),
            Some(FetchedV::Instrumental) => ActionV::MarkInstrumental,
            _ => match embedded {
                Some(e) if !is_blank(e) => ActionV::UseEmbedded(e),
                _ => if fetched is None {
                    ActionV::NoMeta
                } else {
                    ActionV::NotFound
                },
            },
        },
    }
}

fn same_bytes(a: &[u8], b: &[u8]) -> (r: bool)
    ensures
        r == (a@ == b@),
{
    if a.len() != b.len() {
        return false;
    }
    let mut i: usize = 0;
    while i < a.len()
        invariant
            i <= a@.len(),
            a@.len() == b@.len(),
            forall|k: int| 0 <= k < i ==> a@[k] == b@[k],
        decreases a@.len() - i,
    {
        if a[i] != b[i] {
            return false;
        }
        i += 1;
    }
    assert(a@ =~= b@);
    true
}

/// What to do about a sidecar.
pub fn settle(side: &Sidecar, opts: Options, fetched: Option<Fetched>, embedded: Option<&str>) -> (r: Action)
    ensures
        r.deep_view() == action_of(*side, opts, fetched.deep_view(), embedded.deep_view()),
{
    match side {
        Sidecar::Unreadable => Action::Leave,
        Sidecar::Bytes(b) => match fetched {
            Some(Fetched::Synced(s)) => {
                if wants_fetch(side, opts) && !same_bytes(s.as_str().as_bytes(), b.as_slice()) {
                    Action::Replace(s)
                } else {
                    Action::Leave
                }
            },
            _ => Action::Leave,
        },
        Sidecar::Absent => match fetched {
            Some(Fetched::Synced(s)) => Action::CreateSynced(s),
            Some(Fetched::Plain(s)) => Action::CreatePlain(s),
            Some(Fetched::Instrumental) => Action::MarkInstrumental,
            other => {
                if let Some(e) = embedded {
                    if !blank(e) {
                        return Action::UseEmbedded(e.to_string());
                    }
                }
                match other {
                    None => Action::NoMeta,
                    _ => Action::NotFound,
                }
            },
        },
    }
}

/// A sidecar is never made worse: what replaces it is synced lyrics from a source, and
/// only where it was plain or generated. One that cannot be read is left alone.
pub proof fn law_sidecar_never_downgraded(
    side: Sidecar,
    opts: Options,
    fetched: Option<FetchedV>,
    embedded: Option<Seq<char>>,
)
    ensures
        side is Unreadable ==> action_of(side, opts, fetched, embedded) is Leave,
        side matches Sidecar::Bytes(b) && synced_bytes(b@) && !generated_text(decode_utf8(b@)) ==> action_of(
            side,
            opts,
            fetched,
            embedded,
        ) is Leave,
        !opts.upgrade_synced && side !is Absent ==> action_of(side, opts, fetched, embedded) is Leave,
        side !is Absent ==> (action_of(side, opts, fetched, embedded) is Leave || action_of(
            side,
            opts,
            fetched,
            embedded,
        ) is Replace),
        action_of(side, opts, fetched, embedded) matches ActionV::Replace(s) ==> fetched == Some(FetchedV::Synced(s)),
{
}

/// What a track is counted as.
#[derive(Clone, Copy, PartialEq, Eq, Structural, Debug)]
pub enum Tally {
    OkSynced,
    OkPlain,
    Upgraded,
    NotFound,
    Instrumental,
    NoMeta,
    Skipped,
}

/// A track after its sidecar is settled.
#[derive(Debug)]
pub struct Settled {
    /// The lyrics that it has now.
    pub content: Option<String>,
    /// What it is counted as, if anything.
    pub tally: Option<Tally>,
}

/// The text of the sidecar that was there before.
pub open spec fn old_text(side: Sidecar) -> Option<Seq<char>> {
    match side {
        Sidecar::Bytes(b) => if valid_utf8(b@) {
            Some(decode_utf8(b@))
        } else {
            None
        },
        _ => None,
    }
}

/// A track after the action was carried out. `done` is whether the file was written.
pub open spec fn settled_content(side: Sidecar, action: ActionV, done: bool) -> Option<Seq<char>> {
    match action {
        ActionV::Replace(s) => if done {
            Some(s)
        } else {
            old_text(side)
        },
        ActionV::CreateSynced(s) => Some(s),
        ActionV::CreatePlain(s) => Some(s),
        ActionV::UseEmbedded(s) => Some(s),
        ActionV::Leave => old_text(side),
        _ => None,
    }
}

/// What a track is counted as after the action was carried out.
pub open spec fn settled_tally(action: ActionV, done: bool) -> Option<Tally> {
    match action {
        ActionV::Leave => Some(Tally::Skipped),
        ActionV::Replace(_) => Some(if done {
            Tally::Upgraded
        } else {
            Tally::Skipped
        }),
        ActionV::CreateSynced(_) => if done {
            Some(Tally::OkSynced)
        } else {
            None
        },
        ActionV::CreatePlain(_) => if done {
            Some(Tally::OkPlain)
        } else {
            None
        },
        ActionV::MarkInstrumental => Some(Tally::Instrumental),
        ActionV::UseEmbedded(_) => None,
        ActionV::NotFound => Some(Tally::NotFound),
        ActionV::NoMeta => Some(Tally::NoMeta),
    }
}

/// A track after the action was carried out. `done` is whether the file was written.
pub fn after(side: &Sidecar, action: Action, done: bool) -> (r: Settled)
    ensures
        r.content.deep_view() == settled_content(*side, action.deep_view(), done),
        r.tally == settled_tally(action.deep_view(), done),
{
    match action {
        Action::Replace(s) => if done {
            Settled { content: Some(s), tally: Some(Tally::Upgraded) }
        } else {
            Settled { content: sidecar_text(side), tally: Some(Tally::Skipped) }
        },
        Action::Leave => Settled { content: sidecar_text(side), tally: Some(Tally::Skipped) },
        Action::CreateSynced(s) => Settled {
            content: Some(s),
            tally: if done {
                Some(Tally::OkSynced)
            } else {
                None
            },
        },
        Action::CreatePlain(s) => Settled {
            content: Some(s),
            tally: if done {
                Some(Tally::OkPlain)
            } else {
                None
            },
        },
        Action::UseEmbedded(s) => Settled { content: Some(s), tally: None },
        Action::MarkInstrumental => Settled { content: None, tally: Some(Tally::Instrumental) },
        Action::NotFound => Settled { content: None, tally: Some(Tally::NotFound) },
        Action::NoMeta => Settled { content: None, tally: Some(Tally::NoMeta) },
    }
}

fn sidecar_text(side: &Sidecar) -> (r: Option<String>)
    ensures
        r.deep_view() == old_text(*side),
{
    match side {
        Sidecar::Bytes(b) => text_from_utf8(b.as_slice()),
        _ => None,
    }
}

/// Whether a track goes to alignment: alignment is on, a service is set, and the lyrics
/// it has are not timed.
pub fn wants_align(opts: Options, has_service: bool, content: Option<&str>) -> (r: bool)
    ensures
        r == (opts.align && has_service && (content.deep_view() matches Some(s) && !synced_text(s))),
{
    match content {
        Some(s) => opts.align && has_service && !is_synced_text(s),
        None => false,
    }
}

/// What a track ended as.
#[derive(Clone, Copy, Debug)]
pub struct Outcome {
    /// What settling counted it as.
    pub tally: Option<Tally>,
    /// Alignment timed it.
    pub aligned: bool,
    /// Its lyrics were embedded.
    pub embedded: bool,
}

/// What a track is counted as in the end. One that alignment timed was not skipped or
/// left plain after all.
pub open spec fn final_tally(o: Outcome) -> Option<Tally> {
    if o.aligned && (o.tally == Some(Tally::Skipped) || o.tally == Some(Tally::OkPlain)) {
        None
    } else {
        o.tally
    }
}

#[derive(Debug)]
pub struct Report {
    pub ok_synced: usize,
    pub ok_plain: usize,
    /// Sidecars that were replaced by a synced version.
    pub upgraded: usize,
    /// Tracks whose lyrics were written into the audio file.
    pub embedded: usize,
    /// Tracks that alignment timed.
    pub aligned: usize,
    pub not_found: usize,
    pub instrumental: usize,
    pub no_meta: usize,
    pub skipped: usize,
}

/// How many of the first `n` tracks ended as `t`.
pub open spec fn tally_count(os: Seq<Outcome>, t: Tally, n: int) -> nat
    decreases n,
{
    if n <= 0 {
        0
    } else if final_tally(os[n - 1]) == Some(t) {
        tally_count(os, t, n - 1) + 1
    } else {
        tally_count(os, t, n - 1)
    }
}

/// How many of the first `n` tracks were timed by alignment.
pub open spec fn aligned_count(os: Seq<Outcome>, n: int) -> nat
    decreases n,
{
    if n <= 0 {
        0
    } else if os[n - 1].aligned {
        aligned_count(os, n - 1) + 1
    } else {
        aligned_count(os, n - 1)
    }
}

/// How many of the first `n` tracks had their lyrics embedded.
pub open spec fn embedded_count(os: Seq<Outcome>, n: int) -> nat
    decreases n,
{
    if n <= 0 {
        0
    } else if os[n - 1].embedded {
        embedded_count(os, n - 1) + 1
    } else {
        embedded_count(os, n - 1)
    }
}

fn count_tally(os: &[Outcome], t: Tally) -> (r: usize)
    ensures
        r == tally_count(os@, t, os@.len() as int),
{
    let mut n: usize = 0;
    let mut i: usize = 0;
    while i < os.len()
        invariant
            n <= i <= os@.len(),
            n == tally_count(os@, t, i as int),
        decreases os@.len() - i,
    {
        let o = os[i];
        let dropped = o.aligned && (o.tally == Some(Tally::Skipped) || o.tally == Some(Tally::OkPlain));
        if !dropped && o.tally == Some(t) {
            n += 1;
        }
        i += 1;
    }
    n
}

/// The report on a run over tracks that ended so.
pub fn tally_up(os: &[Outcome]) -> (r: Report)
    ensures
        r.ok_synced == tally_count(os@, Tally::OkSynced, os@.len() as int),
        r.ok_plain == tally_count(os@, Tally::OkPlain, os@.len() as int),
        r.upgraded == tally_count(os@, Tally::Upgraded, os@.len() as int),
        r.embedded == embedded_count(os@, os@.len() as int),
        r.aligned == aligned_count(os@, os@.len() as int),
        r.not_found == tally_count(os@, Tally::NotFound, os@.len() as int),
        r.instrumental == tally_count(os@, Tally::Instrumental, os@.len() as int),
        r.no_meta == tally_count(os@, Tally::NoMeta, os@.len() as int),
        r.skipped == tally_count(os@, Tally::Skipped, os@.len() as int),
{
    let mut aligned: usize = 0;
    let mut embedded: usize = 0;
    let mut i: usize = 0;
    while i < os.len()
        invariant
            i <= os@.len(),
            aligned <= i,
            embedded <= i,
            aligned == aligned_count(os@, i as int),
            embedded == embedded_count(os@, i as int),
        decreases os@.len() - i,
    {
        if os[i].aligned {
            aligned += 1;
        }
        if os[i].embedded {
            embedded += 1;
        }
        i += 1;
    }
    Report {
        ok_synced: count_tally(os, Tally::OkSynced),
        ok_plain: count_tally(os, Tally::OkPlain),
        upgraded: count_tally(os, Tally::Upgraded),
        embedded,
        aligned,
        not_found: count_tally(os, Tally::NotFound),
        instrumental: count_tally(os, Tally::Instrumental),
        no_meta: count_tally(os, Tally::NoMeta),
        skipped: count_tally(os, Tally::Skipped),
    }
}

/// No track is counted twice: one that alignment timed leaves the count of those that
/// were skipped or left plain.
pub proof fn law_counts_are_disjoint(os: Seq<Outcome>, n: int)
    requires
        0 <= n <= os.len(),
    ensures
        tally_count(os, Tally::OkSynced, n) + tally_count(os, Tally::OkPlain, n) + tally_count(os, Tally::Upgraded, n)
            + tally_count(os, Tally::NotFound, n) + tally_count(os, Tally::Instrumental, n) + tally_count(
            os,
            Tally::NoMeta,
            n,
        ) + tally_count(os, Tally::Skipped, n) <= n,
        tally_count(os, Tally::Skipped, n) + tally_count(os, Tally::OkPlain, n) + aligned_count(os, n) <= n,
    decreases n,
{
    if n > 0 {
        law_counts_are_disjoint(os, n - 1);
    }
}

/// What is done where there is no sidecar: one is created with the lyrics that a source has,
/// synced or plain, and nothing but those; an instrumental is marked; and where no source has
/// any, the track's own are used, or it is told that there are none, or that it could not be
/// asked. A sidecar that is plain or generated is replaced by synced lyrics that differ, in a
/// run that upgrades.
pub proof fn law_settled(side: Sidecar, opts: Options, fetched: Option<FetchedV>, embedded: Option<Seq<char>>, s: Seq<char>)
    ensures
        ({
            let a = action_of(side, opts, fetched, embedded);
            &&& side is Absent && fetched == Some(FetchedV::Synced(s)) ==> a == ActionV::CreateSynced(s)
            &&& side is Absent && fetched == Some(FetchedV::Plain(s)) ==> a == ActionV::CreatePlain(s)
            &&& side is Absent && fetched == Some(FetchedV::Instrumental) ==> a == ActionV::MarkInstrumental
            &&& side is Absent && (fetched is None || fetched == Some(FetchedV::NotFound)) && spoken(embedded) ==> a
                == ActionV::UseEmbedded(embedded->0)
            &&& side is Absent && fetched == Some(FetchedV::NotFound) && !spoken(embedded) ==> a == ActionV::NotFound
            &&& side is Absent && fetched is None && !spoken(embedded) ==> a == ActionV::NoMeta
            &&& (side matches Sidecar::Bytes(b) && opts.upgrade_synced && fetched == Some(FetchedV::Synced(s)) && encode_utf8(s)
                != b@ && (!synced_bytes(b@) || generated_text(decode_utf8(b@)))) ==> a == ActionV::Replace(s)
            &&& (side matches Sidecar::Bytes(b) && fetched == Some(FetchedV::Synced(s)) && encode_utf8(s) == b@) ==> a
                == ActionV::Leave
        }),
{
    lemma_spoken(embedded);
}

/// After an action a track has the lyrics that were written, or those that were there where
/// nothing was written over them; it is counted as what was done, and as nothing new where it
/// could not be.
pub proof fn law_after(side: Sidecar, b: Vec<u8>, s: Seq<char>, done: bool)
    ensures
        settled_content(side, ActionV::CreateSynced(s), done) == Some(s),
        settled_content(side, ActionV::CreatePlain(s), done) == Some(s),
        settled_content(side, ActionV::UseEmbedded(s), done) == Some(s),
        settled_content(side, ActionV::Replace(s), true) == Some(s),
        side == Sidecar::Bytes(b) && valid_utf8(b@) ==> {
            &&& settled_content(side, ActionV::Leave, done) == Some(decode_utf8(b@))
            &&& settled_content(side, ActionV::Replace(s), false) == Some(decode_utf8(b@))
        },
        settled_content(side, ActionV::NotFound, done) is None,
        settled_content(side, ActionV::NoMeta, done) is None,
        settled_content(side, ActionV::MarkInstrumental, done) is None,
        settled_tally(ActionV::CreateSynced(s), true) == Some(Tally::OkSynced),
        settled_tally(ActionV::CreatePlain(s), true) == Some(Tally::OkPlain),
        settled_tally(ActionV::Replace(s), true) == Some(Tally::Upgraded),
        settled_tally(ActionV::Replace(s), false) == Some(Tally::Skipped),
        settled_tally(ActionV::CreateSynced(s), false) is None,
        settled_tally(ActionV::CreatePlain(s), false) is None,
        settled_tally(ActionV::UseEmbedded(s), done) is None,
        settled_tally(ActionV::Leave, done) == Some(Tally::Skipped),
        settled_tally(ActionV::NotFound, done) == Some(Tally::NotFound),
        settled_tally(ActionV::NoMeta, done) == Some(Tally::NoMeta),
        settled_tally(ActionV::MarkInstrumental, done) == Some(Tally::Instrumental),
{
}

/// A count is of the tracks that ended so, without those that alignment timed where they would be
/// counted as skipped or plain.
pub proof fn law_tally_count(os: Seq<Outcome>, t: Tally)
    ensures
        tally_count(os, t, os.len() as int) == os.filter(|x: Outcome| x.tally == Some(t) && !(x.aligned && (t == Tally::Skipped || t == Tally::OkPlain))).len(),
{
    lemma_tally_count(os, t, os.len() as int);
    assert(os.take(os.len() as int) =~= os);
}

proof fn lemma_tally_count(os: Seq<Outcome>, t: Tally, n: int)
    requires
        0 <= n <= os.len(),
    ensures
        tally_count(os, t, n) == os.take(n).filter(|x: Outcome| x.tally == Some(t) && !(x.aligned && (t == Tally::Skipped || t == Tally::OkPlain))).len(),
    decreases n,
{
    reveal(Seq::filter);
    if n > 0 {
        lemma_tally_count(os, t, n - 1);
        assert(os.take(n).drop_last() =~= os.take(n - 1));
        assert(os.take(n).last() == os[n - 1]);
    }
}

/// The aligned ones are the tracks that alignment timed.
pub proof fn law_aligned_count(os: Seq<Outcome>)
    ensures
        aligned_count(os, os.len() as int) == os.filter(|x: Outcome| x.aligned).len(),
{
    lemma_aligned_count(os, os.len() as int);
    assert(os.take(os.len() as int) =~= os);
}

proof fn lemma_aligned_count(os: Seq<Outcome>, n: int)
    requires
        0 <= n <= os.len(),
    ensures
        aligned_count(os, n) == os.take(n).filter(|x: Outcome| x.aligned).len(),
    decreases n,
{
    reveal(Seq::filter);
    if n > 0 {
        lemma_aligned_count(os, n - 1);
        assert(os.take(n).drop_last() =~= os.take(n - 1));
        assert(os.take(n).last() == os[n - 1]);
    }
}

/// The embedded ones are the tracks whose lyrics were embedded.
pub proof fn law_embedded_count(os: Seq<Outcome>)
    ensures
        embedded_count(os, os.len() as int) == os.filter(|x: Outcome| x.embedded).len(),
{
    lemma_embedded_count(os, os.len() as int);
    assert(os.take(os.len() as int) =~= os);
}

proof fn lemma_embedded_count(os: Seq<Outcome>, n: int)
    requires
        0 <= n <= os.len(),
    ensures
        embedded_count(os, n) == os.take(n).filter(|x: Outcome| x.embedded).len(),
    decreases n,
{
    reveal(Seq::filter);
    if n > 0 {
        lemma_embedded_count(os, n - 1);
        assert(os.take(n).drop_last() =~= os.take(n - 1));
        assert(os.take(n).last() == os[n - 1]);
    }
}

// ---- alignment -----------------------------------------------------------------------------

/// The boundary between the parts of a request to the alignment service.
pub const ALIGN_BOUNDARY: &'static str = "amdlaligner7c3f9b2boundary";

/// The body of a request to the alignment service: the audio, then the lyrics.
pub open spec fn align_body(filename: Seq<char>, audio: Seq<u8>, plain: Seq<char>) -> Seq<u8> {
    encode_utf8("--"@ + ALIGN_BOUNDARY@ + "\r\nContent-Disposition: form-data; name=\"file\"; filename=\""@ + filename
        + "\"\r\nContent-Type: application/octet-stream\r\n\r\n"@) + audio + encode_utf8(
        "\r\n--"@ + ALIGN_BOUNDARY@ + "\r\nContent-Disposition: form-data; name=\"lyrics\"\r\n\r\n"@ + plain + "\r\n--"@
            + ALIGN_BOUNDARY@ + "--\r\n"@,
    )
}

/// The body of a request to the alignment service.
pub fn align_request(filename: &str, audio: &[u8], plain: &str) -> (r: Vec<u8>)
    ensures
        r@ == align_body(filename@, audio@, plain@),
{
    let mut head = cat3("--", ALIGN_BOUNDARY, "\r\nContent-Disposition: form-data; name=\"file\"; filename=\"");
    head.append(filename);
    head.append("\"\r\nContent-Type: application/octet-stream\r\n\r\n");
    let mut tail = cat3("\r\n--", ALIGN_BOUNDARY, "\r\nContent-Disposition: form-data; name=\"lyrics\"\r\n\r\n");
    tail.append(plain);
    tail.append("\r\n--");
    tail.append(ALIGN_BOUNDARY);
    tail.append("--\r\n");
    let mut out: Vec<u8> = Vec::new();
    push_text(&mut out, head.as_str());
    push_bytes(&mut out, audio);
    push_text(&mut out, tail.as_str());
    assert(out@ =~= align_body(filename@, audio@, plain@));
    out
}

/// The address of the alignment service's endpoint.
pub fn align_endpoint(url: &str) -> (r: String)
    ensures
        r@ == strip_end(url@, '/') + "/align"@,
{
    cat(without_end(url, '/').as_str(), "/align")
}

/// The least overall confidence at which an alignment is accepted, in millionths: a
/// wrong time is worse than none.
pub const ALIGN_MIN_CONF: i64 = 500_000;

/// A number with at least two digits.
pub open spec fn two_digits(n: nat) -> Seq<char> {
    if n < 10 {
        seq!['0'] + decimal(n)
    } else {
        decimal(n)
    }
}

/// Microseconds as a time stamp: minutes, seconds, and hundredths to the nearest, and to the
/// even one of two that are. What is before zero is zero.
pub open spec fn stamp(us: int) -> Seq<char> {
    let s = if us > 0 {
        us
    } else {
        0
    };
    let c = nearest((s % 60_000_000) as nat, 10_000);
    two_digits((s / 60_000_000) as nat) + seq![':'] + two_digits((c / 100) as nat) + seq!['.'] + two_digits((c % 100) as nat)
}

fn push_two_digits(o: &mut String, n: u64)
    ensures
        final(o)@ == old(o)@ + two_digits(n as nat),
{
    let ghost before = o@;
    if n < 10 {
        o.push('0');
    }
    o.append(decimal_text(n).as_str());
    assert(o@ =~= before + two_digits(n as nat));
}

/// Microseconds as a time stamp, `mm:ss.xx`.
pub fn fmt_ts(us: i64) -> (r: String)
    ensures
        r@ == stamp(us as int),
{
    let s: u64 = if us > 0 {
        us as u64
    } else {
        0
    };
    let m: u64 = s / 60_000_000;
    let rest: u64 = s % 60_000_000;
    let q: u64 = rest / 10_000;
    let over: u64 = rest % 10_000;
    let c: u64 = if over > 5_000 || (over == 5_000 && q % 2 == 1) {
        q + 1
    } else {
        q
    };
    let mut o = String::new();
    push_two_digits(&mut o, m);
    o.push(':');
    push_two_digits(&mut o, c / 100);
    o.push('.');
    push_two_digits(&mut o, c % 100);
    assert(o@ =~= stamp(us as int));
    o
}

/// The lines among the first `n` that have both a start and a text.
pub open spec fn timed_rows(l: Seq<JsonV>, n: int) -> Seq<(int, Seq<char>)>
    decreases n,
{
    if n <= 0 {
        seq![]
    } else {
        let before = timed_rows(l, n - 1);
        match (micros_field(l[n - 1], "start"@), text_field(l[n - 1], "text"@)) {
            (Some(t), Some(s)) => before.push((t, s)),
            _ => before,
        }
    }
}

/// The rows by their start.
pub open spec fn sorted_rows(rows: Seq<(int, Seq<char>)>) -> Seq<(int, Seq<char>)> {
    arranged(rows, order_of(rows.map_values(|r: (int, Seq<char>)| seq![r.0])))
}

/// The first `n` rows as lines of lyrics.
pub open spec fn rendered_rows(rows: Seq<(int, Seq<char>)>, n: int) -> Seq<char>
    decreases n,
{
    if n <= 0 {
        seq![]
    } else {
        rendered_rows(rows, n - 1) + seq!['['] + stamp(rows[n - 1].0) + seq![']'] + rows[n - 1].1 + seq!['\n']
    }
}

/// The lyrics that an answer of the alignment service holds, marked as generated.
pub open spec fn generated_lyrics(v: JsonV) -> Option<Seq<char>> {
    let conf = match micros_field(v, "overall_conf"@) {
        Some(c) => c,
        None => 0,
    };
    match list_field(v, "lines"@) {
        Some(l) if l.len() > 0 && conf >= ALIGN_MIN_CONF => {
            let rows = sorted_rows(timed_rows(l, l.len() as int));
            Some(ALIGN_MARKER@ + seq!['\n'] + rendered_rows(rows, rows.len() as int))
        },
        _ => None,
    }
}

pub open spec fn row_views(v: Seq<(i64, String)>) -> Seq<(int, Seq<char>)> {
    v.map_values(|r: (i64, String)| (r.0 as int, r.1@))
}

fn collect_rows(l: &[Json]) -> (r: Vec<(i64, String)>)
    ensures
        row_views(r@) == timed_rows(l.deep_view(), l@.len() as int),
{
    let ghost lv = l.deep_view();
    let mut rows: Vec<(i64, String)> = Vec::new();
    let mut i: usize = 0;
    assert(row_views(rows@) =~= timed_rows(lv, 0));
    while i < l.len()
        invariant
            i <= l@.len(),
            lv == l.deep_view(),
            row_views(rows@) == timed_rows(lv, i as int),
        decreases l@.len() - i,
    {
        let ghost before = row_views(rows@);
        assert(lv[i as int] == l@[i as int].deep_view());
        match (l[i].micros_at("start"), l[i].text_at("text")) {
            (Some(t), Some(s)) => {
                rows.push((t, s.to_string()));
                assert(row_views(rows@) =~= before.push((t as int, s@)));
            },
            _ => {},
        }
        i += 1;
    }
    rows
}

fn sort_rows(rows: Vec<(i64, String)>) -> (r: Vec<(i64, String)>)
    ensures
        row_views(r@) == sorted_rows(row_views(rows@)),
{
    let ghost rv = row_views(rows@);
    let ghost want = rv.map_values(|r: (int, Seq<char>)| seq![r.0]);
    let mut keys: Vec<Vec<i128>> = Vec::new();
    let mut i: usize = 0;
    while i < rows.len()
        invariant
            i <= rows@.len(),
            rv == row_views(rows@),
            want == rv.map_values(|r: (int, Seq<char>)| seq![r.0]),
            keys_ints(keys@) == want.take(i as int),
        decreases rows@.len() - i,
    {
        let ghost before = keys_ints(keys@);
        let mut k: Vec<i128> = Vec::new();
        k.push(rows[i].0 as i128);
        assert(key_ints(k@) =~= want[i as int]);
        keys.push(k);
        proof {
            assert(keys_ints(keys@) =~= before.push(want[i as int]));
            assert(want.take(i + 1) =~= want.take(i as int).push(want[i as int]));
        }
        i += 1;
    }
    proof {
        assert(want.take(i as int) =~= want);
        assert(keys@.len() == keys_ints(keys@).len());
    }
    let o = sort_order(&keys);
    proof {
        lemma_order_len(want, place_ints(o@));
    }
    let r = arrange(rows, &o);
    assert(row_views(r@) =~= sorted_rows(rv));
    r
}

/// The lyrics that an answer of the alignment service holds.
pub fn assemble(v: &Json) -> (r: Option<String>)
    ensures
        r.deep_view() == generated_lyrics(v.deep_view()),
{
    let conf: i64 = match v.micros_at("overall_conf") {
        Some(c) => c,
        None => 0,
    };
    let l = match v.list_at("lines") {
        Some(l) => l,
        None => return None,
    };
    if l.len() == 0 || conf < ALIGN_MIN_CONF {
        return None;
    }
    let rows = sort_rows(collect_rows(l.as_slice()));
    let ghost rv = row_views(rows@);
    let mut out = ALIGN_MARKER.to_string();
    out.push('\n');
    let ghost front = out@;
    let mut i: usize = 0;
    assert(front + rendered_rows(rv, 0) =~= front);
    while i < rows.len()
        invariant
            i <= rows@.len(),
            rv == row_views(rows@),
            out@ == front + rendered_rows(rv, i as int),
        decreases rows@.len() - i,
    {
        assert(rv[i as int] == (rows@[i as int].0 as int, rows@[i as int].1@));
        out.push('[');
        out.append(fmt_ts(rows[i].0).as_str());
        out.push(']');
        out.append(rows[i].1.as_str());
        out.push('\n');
        assert(out@ =~= front + rendered_rows(rv, i + 1));
        i += 1;
    }
    Some(out)
}

/// The lyrics that the alignment service answers with this body. `None`: the answer is
/// no JSON, has no lines, or is not confident enough.
pub fn align_answer(body: &str) -> (r: Option<String>)
    ensures
        r.deep_view() == (match json_value(body@) {
            Some(v) => generated_lyrics(v),
            None => None,
        }),
{
    match parse(body) {
        Some(v) => assemble(&v),
        None => None,
    }
}

proof fn lemma_decimal_digits(n: nat)
    ensures
        decimal(n).len() > 0,
        forall|i: int| 0 <= i < decimal(n).len() ==> ascii_digit(#[trigger] decimal(n)[i]),
    decreases n,
{
    if n >= 10 {
        lemma_decimal_digits(n / 10);
    }
}

proof fn lemma_digits_end(s: Seq<char>, i: int, e: int)
    requires
        0 <= i <= e < s.len(),
        forall|k: int| i <= k < e ==> ascii_digit(#[trigger] s[k]),
        !ascii_digit(s[e]),
    ensures
        digits_end(s, i) == e,
    decreases e - i,
{
    if i < e {
        lemma_digits_end(s, i + 1, e);
    }
}

/// Generated lyrics are told from others: they carry the mark, and they are timed where
/// any line was.
pub proof fn law_generated_lyrics(v: JsonV)
    requires
        generated_lyrics(v) is Some,
    ensures
        generated_text(generated_lyrics(v)->0),
        timed_rows(list_field(v, "lines"@)->0, list_field(v, "lines"@)->0.len() as int).len() > 0 ==> synced_text(
            generated_lyrics(v)->0,
        ),
{
    let t = generated_lyrics(v)->0;
    let l = list_field(v, "lines"@)->0;
    let raw = timed_rows(l, l.len() as int);
    let rows = sorted_rows(raw);
    let keys = raw.map_values(|r: (int, Seq<char>)| seq![r.0]);
    lemma_order_exists(keys);
    lemma_order_len(keys, order_of(keys));
    let m = ALIGN_MARKER@;
    assert(t.subrange(0, m.len() as int) =~= m);
    assert(matches_at(t, m, 0));
    if raw.len() > 0 {
        let n = rows.len() as int;
        let s0 = if rows[0].0 > 0 {
            rows[0].0
        } else {
            0
        };
        let mins = two_digits((s0 / 60_000_000) as nat);
        let body = rendered_rows(rows, n);
        lemma_rendered_front(rows, n);
        lemma_first_row(rows[0]);
        lemma_decimal_digits((s0 / 60_000_000) as nat);
        assert(t =~= m + seq!['\n'] + body);
        reveal_strlit("[re:amdl-align]");
        let first = seq!['['] + stamp(rows[0].0) + seq![']'] + rows[0].1 + seq!['\n'];
        assert forall|i: int| 0 <= i < mins.len() implies body[1 + i] == #[trigger] mins[i] by {
            assert(first[1 + i] == mins[i]);
        }
        assert(body[0] == first[0]);
        assert(body[1 + mins.len() as int] == first[1 + mins.len() as int]);
        lemma_second_line_timed(t, m, mins, body);
    }
}

/// A row begins with a bracket, its minutes and a colon.
proof fn lemma_first_row(row: (int, Seq<char>))
    ensures
        ({
            let first = seq!['['] + stamp(row.0) + seq![']'] + row.1 + seq!['\n'];
            let mins = two_digits(((if row.0 > 0 {
                row.0
            } else {
                0
            }) / 60_000_000) as nat);
            &&& first.len() > mins.len() + 1
            &&& first[0] == '['
            &&& forall|i: int| 0 <= i < mins.len() ==> first[1 + i] == #[trigger] mins[i]
            &&& first[1 + mins.len() as int] == ':'
        }),
{
}

/// A text whose second line begins with a bracket, digits and a colon is timed.
proof fn lemma_second_line_timed(t: Seq<char>, m: Seq<char>, mins: Seq<char>, body: Seq<char>)
    requires
        t == m + seq!['\n'] + body,
        forall|i: int| 0 <= i < m.len() ==> #[trigger] m[i] != '\n',
        mins.len() > 0,
        forall|i: int| 0 <= i < mins.len() ==> ascii_digit(#[trigger] mins[i]),
        body.len() > mins.len() + 1,
        body[0] == '[',
        forall|i: int| 0 <= i < mins.len() ==> body[1 + i] == #[trigger] mins[i],
        body[1 + mins.len() as int] == ':',
    ensures
        synced_text(t),
{
    let k = m.len() as int;
    let nl = seq!['\n'];
    assert(nl[0] == '\n');
    assert(nl.contains('\n'));
    lemma_first_of(t, nl, 0);
    let f = first_of(t, nl, 0);
    assert(t[k] == '\n');
    assert(f == k) by {
        if f < k {
            assert(t[f] == m[f]);
        }
        if k < f {
            assert(!nl.contains(t[k]));
        }
    }
    let rel = 1 + mins.len() as int;
    assert forall|i: int| 0 <= i < body.len() implies t[k + 1 + i] == #[trigger] body[i] by {}
    lemma_first_of(t, nl, k + 1);
    let g = first_of(t, nl, k + 1);
    assert(g > k + 1 + rel) by {
        if g <= k + 1 + rel {
            assert(nl.contains(t[g]));
            assert(t[g] == '\n');
            assert(t[g] == body[g - k - 1]);
            if g > k + 1 && g < k + 1 + rel {
                assert(mins[g - k - 2] == body[g - k - 1]);
            }
        }
    }
    let raw_line = t.subrange(k + 1, g);
    let line = if g < t.len() {
        drop_cr(raw_line)
    } else {
        raw_line
    };
    assert(lines_from(t, k + 1)[0] == line);
    assert(lines_of(t)[1] == lines_from(t, k + 1)[0]);
    assert(raw_line[rel] == body[rel]);
    assert(line.len() > rel);
    assert(line[0] == body[0]);
    assert forall|i: int| 1 <= i < rel implies ascii_digit(#[trigger] line[i]) by {
        assert(line[i] == body[i]);
        assert(mins[i - 1] == body[1 + (i - 1)]);
    }
    assert(line[rel] == ':');
    assert(skip_space(line, 0) == 0);
    assert(trim_front(line) =~= line);
    lemma_digits_end(line, 1, rel);
    assert(timed_line(lines_of(t)[1]));
}

/// What is rendered begins with its first row.
proof fn lemma_rendered_front(rows: Seq<(int, Seq<char>)>, n: int)
    requires
        1 <= n <= rows.len(),
    ensures
        ({
            let first = seq!['['] + stamp(rows[0].0) + seq![']'] + rows[0].1 + seq!['\n'];
            &&& rendered_rows(rows, n).len() >= first.len()
            &&& forall|i: int| 0 <= i < first.len() ==> rendered_rows(rows, n)[i] == #[trigger] first[i]
        }),
    decreases n,
{
    let first = seq!['['] + stamp(rows[0].0) + seq![']'] + rows[0].1 + seq!['\n'];
    if n > 1 {
        lemma_rendered_front(rows, n - 1);
    } else {
        assert(rendered_rows(rows, 0).len() == 0);
        assert(rendered_rows(rows, 1) =~= first);
    }
}

/// A time stamp is minutes, seconds and hundredths, each of two digits at least, and names the
/// time to the nearest hundredth of a second, to the even one of two that are.
pub proof fn law_stamp(us: int)
    requires
        us >= 0,
    ensures
        exists|m: Seq<char>, s: Seq<char>, c: Seq<char>|
            {
                &&& stamp(us) == #[trigger] (m + seq![':'] + s + seq!['.'] + c)
                &&& all_digits(m) && all_digits(s) && all_digits(c)
                &&& m.len() >= 2 && s.len() == 2 && c.len() == 2
                &&& digits_value(m) == us / 60_000_000
                &&& ({
                    let named = (digits_value(m) * 6000 + digits_value(s) * 100 + digits_value(c)) * 10_000;
                    -5_000 <= named - us <= 5_000 && ((named - us == 5_000 || us - named == 5_000) ==> digits_value(c) % 2 == 0)
                })
            },
{
    let n = (us % 60_000_000) as nat;
    let h = nearest(n, 10_000);
    law_nearest(n, 10_000);
    let m = two_digits((us / 60_000_000) as nat);
    let s = two_digits(h / 100);
    let c = two_digits(h % 100);
    lemma_two_digits((us / 60_000_000) as nat);
    lemma_two_digits(h / 100);
    lemma_two_digits(h % 100);
    assert(stamp(us) == m + seq![':'] + s + seq!['.'] + c);
    assert(h == 100 * (h / 100) + h % 100);
}

proof fn lemma_two_digits(n: nat)
    ensures
        all_digits(two_digits(n)),
        digits_value(two_digits(n)) == n,
        two_digits(n).len() >= 2,
        n < 100 ==> two_digits(n).len() == 2,
{
    law_decimal(n);
    let t = two_digits(n);
    if n < 10 {
        let d = decimal(n);
        assert(d.len() == 1);
        assert(t =~= seq!['0', d[0]]);
        assert(t.drop_last() =~= seq!['0']);
        assert(seq!['0'].drop_last() =~= seq![]);
        assert(d.drop_last() =~= seq![]);
        reveal_with_fuel(digits_value, 3);
    } else {
        law_decimal(n / 10);
        if n < 100 {
            assert(decimal(n / 10).len() == 1);
        }
    }
}

/// The rows are the lines that have a start and a text, in their order, each with its own.
pub proof fn law_timed_rows(l: Seq<JsonV>)
    ensures
        timed_rows(l, l.len() as int) == l.map_values(|x: JsonV| match (micros_field(x, "start"@), text_field(x, "text"@)) {
                (Some(t), Some(s)) => seq![(t, s)],
                _ => seq![],
            }).flatten(),
{
    lemma_timed_rows(l, l.len() as int);
    assert(l.take(l.len() as int) =~= l);
}

proof fn lemma_timed_rows(l: Seq<JsonV>, n: int)
    requires
        0 <= n <= l.len(),
    ensures
        timed_rows(l, n) == l.take(n).map_values(|x: JsonV| match (micros_field(x, "start"@), text_field(x, "text"@)) {
                (Some(t), Some(s)) => seq![(t, s)],
                _ => seq![],
            }).flatten(),
    decreases n,
{
    let all = l.take(n).map_values(|x: JsonV| match (micros_field(x, "start"@), text_field(x, "text"@)) {
                (Some(t), Some(s)) => seq![(t, s)],
                _ => seq![],
            });
    if n > 0 {
        lemma_timed_rows(l, n - 1);
        let before = l.take(n - 1).map_values(|x: JsonV| match (micros_field(x, "start"@), text_field(x, "text"@)) {
                (Some(t), Some(s)) => seq![(t, s)],
                _ => seq![],
            });
        assert(all =~= before.push(all[n - 1]));
        assert(l.take(n)[n - 1] == l[n - 1]);
        lemma_flatten_push(before, all[n - 1]);
        assert(timed_rows(l, n) =~= before.flatten() + all[n - 1]);
    } else {
        assert(all =~= seq![]);
        assert(all.flatten() =~= seq![]);
    }
}

/// Each row becomes a line of its own: its time stamp in brackets, and its text behind it.
pub proof fn law_rendered_rows(rows: Seq<(int, Seq<char>)>)
    ensures
        rendered_rows(rows, rows.len() as int) == rows.map_values(|x: (int, Seq<char>)| seq!['['] + stamp(x.0) + seq![']'] + x.1 + seq!['\n']).flatten(),
{
    lemma_rendered_rows(rows, rows.len() as int);
    assert(rows.take(rows.len() as int) =~= rows);
}

proof fn lemma_rendered_rows(rows: Seq<(int, Seq<char>)>, n: int)
    requires
        0 <= n <= rows.len(),
    ensures
        rendered_rows(rows, n) == rows.take(n).map_values(|x: (int, Seq<char>)| seq!['['] + stamp(x.0) + seq![']'] + x.1 + seq!['\n']).flatten(),
    decreases n,
{
    let all = rows.take(n).map_values(|x: (int, Seq<char>)| seq!['['] + stamp(x.0) + seq![']'] + x.1 + seq!['\n']);
    if n > 0 {
        lemma_rendered_rows(rows, n - 1);
        let before = rows.take(n - 1).map_values(|x: (int, Seq<char>)| seq!['['] + stamp(x.0) + seq![']'] + x.1 + seq!['\n']);
        assert(all =~= before.push(all[n - 1]));
        assert(rows.take(n)[n - 1] == rows[n - 1]);
        lemma_flatten_push(before, all[n - 1]);
        assert(all[n - 1] == seq!['['] + stamp(rows[n - 1].0) + seq![']'] + rows[n - 1].1 + seq!['\n']);
        assert(rendered_rows(rows, n) =~= before.flatten() + all[n - 1]);
    } else {
        assert(all =~= seq![]);
        assert(all.flatten() =~= seq![]);
    }
}

/// Generated lyrics hold every row once, by time: the mark in a line of its own, then the rows
/// from the earliest on. There are none exactly where the answer has no lines or is not
/// confident enough.
pub proof fn law_generated_rows(v: JsonV)
    ensures
        generated_lyrics(v) is Some <==> (list_field(v, "lines"@) matches Some(l) && l.len() > 0) && (micros_field(
            v,
            "overall_conf"@,
        ) matches Some(c) && c >= 500_000),
        generated_lyrics(v) matches Some(t) ==> exists|rows: Seq<(int, Seq<char>)>|
            {
                let l = list_field(v, "lines"@)->0;
                &&& t == "[re:amdl-align]"@ + seq!['\n'] + #[trigger] rendered_rows(rows, rows.len() as int)
                &&& rows.to_multiset() == timed_rows(l, l.len() as int).to_multiset()
                &&& forall|i: int, j: int| 0 <= i < j < rows.len() ==> (#[trigger] rows[i]).0 <= (#[trigger] rows[j]).0
            },
{
    if let Some(t) = generated_lyrics(v) {
        let l = list_field(v, "lines"@)->0;
        let raw = timed_rows(l, l.len() as int);
        let rows = sorted_rows(raw);
        let keys = raw.map_values(|r: (int, Seq<char>)| seq![r.0]);
        law_sorted(raw, keys);
        let o = order_of(keys);
        assert forall|i: int, j: int| 0 <= i < j < rows.len() implies (#[trigger] rows[i]).0 <= (#[trigger] rows[j]).0 by {
            assert(!less(keys[o[j]], keys[o[i]]));
            assert(keys[o[i]] == seq![rows[i].0] && keys[o[j]] == seq![rows[j].0]);
        }
        assert(t == "[re:amdl-align]"@ + seq!['\n'] + rendered_rows(rows, rows.len() as int));
    }
}

// ---- marking by hand -----------------------------------------------------------------------

/// A tag after its track was marked as instrumental by hand, which takes its lyrics out,
/// or after that mark was taken off.
pub open spec fn marked_by_hand(t: TagV, unmark: bool) -> TagV {
    if unmark {
        with_mark(t, false)
    } else {
        with_mark(TagV { lyrics: None, ..t }, true)
    }
}

/// Marks a track as instrumental and takes its lyrics out, or takes the mark off.
pub fn mark_instrumental(tag: &mut Tag, unmark: bool)
    ensures
        final(tag).deep_view() == marked_by_hand(old(tag).deep_view(), unmark),
{
    if unmark {
        clear_instrumental_mark(tag);
    } else {
        clear_lyrics(tag);
        set_instrumental_mark(tag);
    }
}

/// Whether the lyrics beside a track go too: where it is marked, and there are some.
pub fn drops_sidecar(unmark: bool, exists: bool) -> (r: bool)
    ensures
        r == (!unmark && exists),
{
    !unmark && exists
}

/// A track that was marked by hand carries the mark, has no lyrics, and is never looked up
/// again; one whose mark was taken off does not carry it.
pub proof fn law_marked_by_hand(t: TagV)
    ensures
        is_marked(marked_by_hand(t, false)),
        marked_by_hand(t, false).lyrics is None,
        gate_of(is_marked(marked_by_hand(t, false)), marked_by_hand(t, false).title) == Gate::Skip,
        !is_marked(marked_by_hand(t, true)),
        marked_by_hand(t, true).lyrics == t.lyrics,
{
    law_mark(TagV { lyrics: None, ..t }, true);
    law_mark(t, false);
}

/// The sources are asked about a track that has no sidecar, never about one whose sidecar cannot
/// be read, and about any other only in a run that upgrades, where the sidecar can be improved.
pub proof fn law_asks(b: Vec<u8>, opts: Options)
    ensures
        asks(Sidecar::Absent, opts),
        !asks(Sidecar::Unreadable, opts),
        !opts.upgrade_synced ==> !asks(Sidecar::Bytes(b), opts),
        opts.upgrade_synced ==> (asks(Sidecar::Bytes(b), opts) <==> improvable(b@)),
{
}

/// A track that alignment timed is not counted as skipped or plain; every other count stands.
pub proof fn law_final_tally(o: Outcome)
    ensures
        o.aligned ==> final_tally(o) != Some(Tally::Skipped) && final_tally(o) != Some(Tally::OkPlain),
        final_tally(o) is Some ==> final_tally(o) == o.tally,
        final_tally(o) is None && o.tally is Some ==> o.aligned && (o.tally == Some(Tally::Skipped) || o.tally == Some(
            Tally::OkPlain,
        )),
{
}

/// A lookup names the artist and the title, and the album and the length where they are known,
/// each once.
pub proof fn law_lookup_params(artist: Seq<char>, title: Seq<char>, album: Option<Seq<char>>, dur: Option<u64>)
    ensures
        ({
            let p = lookup_params(artist, title, album, dur);
            &&& p.contains(("artist_name"@, artist)) && p.contains(("track_name"@, title))
            &&& album is Some ==> p.contains(("album_name"@, album->0))
            &&& dur is Some ==> p.contains(("duration"@, decimal(dur->0 as nat)))
            &&& p.len() == 2 + (if album is Some {
                1int
            } else {
                0
            }) + (if dur is Some {
                1int
            } else {
                0
            })
            &&& lrcapi_params(artist, title, album).contains(("artist"@, artist))
            &&& lrcapi_params(artist, title, album).contains(("title"@, title))
            &&& album is Some ==> lrcapi_params(artist, title, album).contains(("album"@, album->0))
            &&& lrcapi_params(artist, title, album).len() == 2 + (if album is Some {
                1int
            } else {
                0
            })
        }),
{
    let p = lookup_params(artist, title, album, dur);
    let q = lrcapi_params(artist, title, album);
    assert(p[0] == ("artist_name"@, artist));
    assert(p[1] == ("track_name"@, title));
    assert(q[0] == ("title"@, title));
    assert(q[1] == ("artist"@, artist));
    if album is Some {
        assert(p[2] == ("album_name"@, album->0));
        assert(q[2] == ("album"@, album->0));
    }
    if dur is Some {
        assert(p[p.len() - 1] == ("duration"@, decimal(dur->0 as nat)));
    }
}

/// A track that is marked as instrumental is passed over, whatever its title; one whose title says
/// so is marked; every other goes on.
pub proof fn law_gate(title: Option<Seq<char>>, t: Seq<char>)
    ensures
        gate_of(true, title) is Skip,
        instrumental_title(t) ==> gate_of(false, Some(t)) is Mark,
        !instrumental_title(t) ==> gate_of(false, Some(t)) is Pass,
        gate_of(false, None) is Pass,
{
}

} // verus!
