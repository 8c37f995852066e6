//! An overview of a library: formats, bitrates, sample rates and channels, covers, tags,
//! and the state of the lyrics beside and inside each track. Nothing is written.
use vstd::arithmetic::div_mod::lemma_fundamental_div_mod;
use vstd::prelude::*;
use vstd::utf8::{decode_utf8, valid_utf8};
use crate::lyrics::{generated_text, is_generated, is_synced_text, synced_text};
use crate::path::{extension, extension_of};
use crate::sort::{
    arrange, arranged, group, group_ints, groups_of, key_ints, keys_ints, law_group_count, law_group_members,
    law_group_sizes, law_groups, law_sorted, lemma_less_asymmetric, lemma_less_behind, lemma_less_total,
    lemma_order_exists, lemma_order_len, lemma_text_key_front, lemma_total_sorted, less, order_of, place_ints,
    push_text_key, sizes, sort_order, text_key, total,
};
use crate::tags::{Meta, MetaV};
use crate::text::{
    ascii_lowered, blank, decimal, decimal_text, is_blank, lemma_flatten_push, lower_ascii, lower_text,
    text_from_utf8, trim, trimmed,
};

verus! {

// ---- lyric tiers -------------------------------------------------------------------------

/// The quality of lyrics, from none to synced.
#[derive(Debug, Clone, Copy, PartialEq, Eq, PartialOrd, Ord, Structural)]
pub enum Tier {
    Nothing,
    Plain,
    Generated,
    Synced,
}

/// The place of a tier among the tiers.
pub open spec fn tier_rank(t: Tier) -> int {
    match t {
        Tier::Nothing => 0,
        Tier::Plain => 1,
        Tier::Generated => 2,
        Tier::Synced => 3,
    }
}

/// The tier of a file of lyrics. What is no text is still there, and counts as plain.
pub open spec fn tier_of(b: Seq<u8>) -> Tier {
    if !valid_utf8(b) {
        Tier::Plain
    } else {
        text_tier(decode_utf8(b))
    }
}

/// The tier of lyrics.
pub open spec fn text_tier(s: Seq<char>) -> Tier {
    if is_blank(s) {
        Tier::Nothing
    } else if generated_text(s) {
        Tier::Generated
    } else if synced_text(s) {
        Tier::Synced
    } else {
        Tier::Plain
    }
}

fn classify_text(s: &str) -> (r: Tier)
    ensures
        r == text_tier(s@),
{
    if blank(s) {
        Tier::Nothing
    } else if is_generated(s) {
        Tier::Generated
    } else if is_synced_text(s) {
        Tier::Synced
    } else {
        Tier::Plain
    }
}

/// The tier of a file of lyrics.
pub fn classify(bytes: &[u8]) -> (r: Tier)
    ensures
        r == tier_of(bytes@),
{
    match text_from_utf8(bytes) {
        None => Tier::Plain,
        Some(s) => classify_text(s.as_str()),
    }
}

/// The better of two tiers.
pub open spec fn better_tier(a: Tier, b: Tier) -> Tier {
    if tier_rank(b) > tier_rank(a) {
        b
    } else {
        a
    }
}

fn rank(t: Tier) -> (r: u8)
    ensures
        r == tier_rank(t),
{
    match t {
        Tier::Nothing => 0,
        Tier::Plain => 1,
        Tier::Generated => 2,
        Tier::Synced => 3,
    }
}

/// The better of two tiers.
pub fn better(a: Tier, b: Tier) -> (r: Tier)
    ensures
        r == better_tier(a, b),
{
    if rank(b) > rank(a) {
        b
    } else {
        a
    }
}

/// How many tracks are in each tier.
#[derive(Debug, Clone, Copy, PartialEq, Eq, Structural)]
pub struct TierCounts {
    pub none: usize,
    pub plain: usize,
    pub generated: usize,
    pub synced: usize,
}

// ---- records -----------------------------------------------------------------------------

/// What was seen of one file.
#[derive(Debug)]
pub struct Record {
    pub ext: String,
    pub bytes: u64,
    pub readable: bool,
    pub duration: u64,
    pub bitrate: Option<u32>,
    pub sample_rate: Option<u32>,
    pub channels: Option<u8>,
    pub has_cover: bool,
    pub missing_title: bool,
    pub missing_artist: bool,
    pub missing_album: bool,
    pub artist_key: Option<String>,
    pub album_key: Option<(String, String)>,
    pub sidecar: Tier,
    pub embedded: Tier,
}

#[verifier::ext_equal]
pub struct RecordV {
    pub ext: Seq<char>,
    pub bytes: u64,
    pub readable: bool,
    pub duration: u64,
    pub bitrate: Option<u32>,
    pub sample_rate: Option<u32>,
    pub channels: Option<u8>,
    pub has_cover: bool,
    pub missing_title: bool,
    pub missing_artist: bool,
    pub missing_album: bool,
    pub artist_key: Option<Seq<char>>,
    pub album_key: Option<(Seq<char>, Seq<char>)>,
    pub sidecar: Tier,
    pub embedded: Tier,
}

impl DeepView for Record {
    type V = RecordV;

    open spec fn deep_view(&self) -> RecordV {
        RecordV {
            ext: self.ext@,
            bytes: self.bytes,
            readable: self.readable,
            duration: self.duration,
            bitrate: self.bitrate,
            sample_rate: self.sample_rate,
            channels: self.channels,
            has_cover: self.has_cover,
            missing_title: self.missing_title,
            missing_artist: self.missing_artist,
            missing_album: self.missing_album,
            artist_key: self.artist_key.deep_view(),
            album_key: self.album_key.deep_view(),
            sidecar: self.sidecar,
            embedded: self.embedded,
        }
    }
}

/// A text that is not there, or is blank.
pub open spec fn is_missing(s: Option<Seq<char>>) -> bool {
    match s {
        Some(t) => is_blank(t),
        None => true,
    }
}

/// What artists are told apart by.
pub open spec fn artist_key_of(artist: Option<Seq<char>>) -> Option<Seq<char>> {
    match artist {
        Some(a) if lower_text(trimmed(a)).len() > 0 => Some(lower_text(trimmed(a))),
        _ => None,
    }
}

/// What albums are told apart by: the album artist, else the artist, and the title.
pub open spec fn album_key_of(m: MetaV) -> Option<(Seq<char>, Seq<char>)> {
    match m.album {
        Some(al) if !is_blank(al) => {
            let owner = match m.album_artist {
                Some(a) => lower_text(trimmed(a)),
                None => match m.artist {
                    Some(a) => lower_text(trimmed(a)),
                    None => seq![],
                },
            };
            Some((owner, lower_text(trimmed(al))))
        },
        _ => None,
    }
}

/// The extension of a path in small letters, empty where it has none.
pub open spec fn ext_of(path: Seq<char>) -> Seq<char> {
    match extension_of(path) {
        Some(e) => ascii_lowered(e),
        None => seq![],
    }
}

/// What is recorded of a file. `sidecar` is what its `.lrc` file holds; `meta` is not
/// there where the file cannot be read.
pub open spec fn record_of(path: Seq<char>, bytes: u64, sidecar: Option<Seq<u8>>, meta: Option<MetaV>) -> RecordV {
    let side = match sidecar {
        Some(b) => tier_of(b),
        None => Tier::Nothing,
    };
    match meta {
        None => RecordV {
            ext: ext_of(path),
            bytes,
            readable: false,
            duration: 0,
            bitrate: None,
            sample_rate: None,
            channels: None,
            has_cover: false,
            missing_title: true,
            missing_artist: true,
            missing_album: true,
            artist_key: None,
            album_key: None,
            sidecar: side,
            embedded: Tier::Nothing,
        },
        Some(m) => RecordV {
            ext: ext_of(path),
            bytes,
            readable: true,
            duration: m.duration_secs,
            bitrate: m.bitrate_kbps,
            sample_rate: m.sample_rate,
            channels: m.channels,
            has_cover: m.has_cover,
            missing_title: is_missing(m.title),
            missing_artist: is_missing(m.artist),
            missing_album: is_missing(m.album),
            artist_key: artist_key_of(m.artist),
            album_key: album_key_of(m),
            sidecar: side,
            embedded: match m.lyrics {
                Some(s) => text_tier(s),
                None => Tier::Nothing,
            },
        },
    }
}

fn missing(s: &Option<String>) -> (r: bool)
    ensures
        r == is_missing(s.deep_view()),
{
    match s {
        Some(t) => blank(t.as_str()),
        None => true,
    }
}

fn lowered_trimmed(s: &str) -> (r: String)
    ensures
        r@ == lower_text(trimmed(s@)),
{
    trim(s).as_str().to_lowercase()
}

fn make_artist_key(artist: &Option<String>) -> (r: Option<String>)
    ensures
        r.deep_view() == artist_key_of(artist.deep_view()),
{
    match artist {
        Some(a) => {
            let k = lowered_trimmed(a.as_str());
            if k.as_str().is_empty() {
                None
            } else {
                Some(k)
            }
        },
        None => None,
    }
}

fn make_album_key(m: &Meta) -> (r: Option<(String, String)>)
    ensures
        r.deep_view() == album_key_of(m.deep_view()),
{
    match &m.album {
        Some(al) => {
            if blank(al.as_str()) {
                return None;
            }
            let owner = match &m.album_artist {
                Some(a) => lowered_trimmed(a.as_str()),
                None => match &m.artist {
                    Some(a) => lowered_trimmed(a.as_str()),
                    None => String::new(),
                },
            };
            Some((owner, lowered_trimmed(al.as_str())))
        },
        None => None,
    }
}

fn lower_ext(path: &str) -> (r: String)
    ensures
        r@ == ext_of(path@),
{
    match extension(path) {
        Some(e) => lower_ascii(e.as_str()),
        None => String::new(),
    }
}

/// What is recorded of a file.
pub fn probe(path: &str, bytes: u64, sidecar: Option<&[u8]>, meta: Option<&Meta>) -> (r: Record)
    ensures
        r.deep_view() == record_of(
            path@,
            bytes,
            match sidecar {
                Some(b) => Some(b@),
                None => None,
            },
            meta.deep_view(),
        ),
{
    let ext = lower_ext(path);
    let side = match sidecar {
        Some(b) => classify(b),
        None => Tier::Nothing,
    };
    match meta {
        None => Record {
            ext,
            bytes,
            readable: false,
            duration: 0,
            bitrate: None,
            sample_rate: None,
            channels: None,
            has_cover: false,
            missing_title: true,
            missing_artist: true,
            missing_album: true,
            artist_key: None,
            album_key: None,
            sidecar: side,
            embedded: Tier::Nothing,
        },
        Some(m) => {
            let embedded = match &m.lyrics {
                Some(s) => classify_text(s.as_str()),
                None => Tier::Nothing,
            };
            Record {
                ext,
                bytes,
                readable: true,
                duration: m.duration_secs,
                bitrate: m.bitrate_kbps,
                sample_rate: m.sample_rate,
                channels: m.channels,
                has_cover: m.has_cover,
                missing_title: missing(&m.title),
                missing_artist: missing(&m.artist),
                missing_album: missing(&m.album),
                artist_key: make_artist_key(&m.artist),
                album_key: make_album_key(m),
                sidecar: side,
                embedded,
            }
        },
    }
}

// ---- labels ------------------------------------------------------------------------------

/// The nominal bitrate that a bitrate in kbps is counted under.
pub open spec fn bucket_of(kbps: u32) -> int {
    if kbps <= 112 {
        0
    } else if kbps <= 144 {
        1
    } else if kbps <= 176 {
        2
    } else if kbps <= 224 {
        3
    } else if kbps <= 288 {
        4
    } else if kbps <= 352 {
        5
    } else {
        6
    }
}

/// The names of the nominal bitrates, in order.
pub open spec fn bucket_names() -> Seq<Seq<char>> {
    seq!["≤112k"@, "128k"@, "160k"@, "192k"@, "256k"@, "320k"@, ">320k"@]
}

fn bucket_index(kbps: u32) -> (r: usize)
    ensures
        r == bucket_of(kbps),
        r < 7,
{
    if kbps <= 112 {
        0
    } else if kbps <= 144 {
        1
    } else if kbps <= 176 {
        2
    } else if kbps <= 224 {
        3
    } else if kbps <= 288 {
        4
    } else if kbps <= 352 {
        5
    } else {
        6
    }
}

fn bucket_name(i: usize) -> (r: &'static str)
    requires
        i < 7,
    ensures
        r@ == bucket_names()[i as int],
{
    if i == 0 {
        "≤112k"
    } else if i == 1 {
        "128k"
    } else if i == 2 {
        "160k"
    } else if i == 3 {
        "192k"
    } else if i == 4 {
        "256k"
    } else if i == 5 {
        "320k"
    } else {
        ">320k"
    }
}

/// The name of the nominal bitrate that a bitrate in kbps is counted under.
pub fn bitrate_bucket(kbps: u32) -> (r: &'static str)
    ensures
        r@ == bucket_names()[bucket_of(kbps)],
{
    bucket_name(bucket_index(kbps))
}

/// The name of a channel layout.
pub open spec fn channel_name(ch: Option<u8>) -> Seq<char> {
    match ch {
        None => "unknown"@,
        Some(1) => "mono"@,
        Some(2) => "stereo"@,
        Some(n) => decimal(n as nat) + " ch"@,
    }
}

/// The name of a channel layout.
pub fn channel_label(ch: Option<u8>) -> (r: String)
    ensures
        r@ == channel_name(ch),
{
    match ch {
        None => "unknown".to_string(),
        Some(n) => if n == 1 {
            "mono".to_string()
        } else if n == 2 {
            "stereo".to_string()
        } else {
            crate::text::cat(decimal_text(n as u64).as_str(), " ch")
        },
    }
}

/// The name of a sample rate; zero is none.
pub open spec fn rate_name(rate: Option<u32>) -> Seq<char> {
    match rate {
        Some(n) if n != 0 => decimal(n as nat),
        _ => "unknown"@,
    }
}

fn rate_label(rate: Option<u32>) -> (r: String)
    ensures
        r@ == rate_name(rate),
{
    match rate {
        Some(n) => if n != 0 {
            decimal_text(n as u64)
        } else {
            "unknown".to_string()
        },
        None => "unknown".to_string(),
    }
}

// ---- distributions -----------------------------------------------------------------------

/// A name and how often it occurs.
#[derive(Debug)]
pub struct Count {
    pub name: String,
    pub count: usize,
}

#[verifier::ext_equal]
pub struct CountV {
    pub name: Seq<char>,
    pub count: int,
}

impl DeepView for Count {
    type V = CountV;

    open spec fn deep_view(&self) -> CountV {
        CountV { name: self.name@, count: self.count as int }
    }
}

pub open spec fn name_keys(names: Seq<Seq<char>>) -> Seq<Seq<int>> {
    names.map_values(|s: Seq<char>| text_key(s))
}

/// Each name with how often it occurs.
pub open spec fn counted(names: Seq<Seq<char>>) -> Seq<CountV> {
    groups_of(name_keys(names)).map_values(|g: Seq<int>| CountV { name: names[g[0]], count: g.len() as int })
}

pub open spec fn count_key(c: CountV) -> Seq<int> {
    seq![-c.count] + text_key(c.name)
}

/// Each name with how often it occurs, the most frequent first, then by name.
pub open spec fn ranking(names: Seq<Seq<char>>) -> Seq<CountV> {
    let cs = counted(names);
    arranged(cs, order_of(cs.map_values(|c: CountV| count_key(c))))
}

fn keys_of_names(names: &[String]) -> (r: Vec<Vec<i128>>)
    ensures
        keys_ints(r@) == name_keys(names.deep_view()),
        r@.len() == names@.len(),
{
    let ghost want = name_keys(names.deep_view());
    let mut keys: Vec<Vec<i128>> = Vec::new();
    let mut i: usize = 0;
    while i < names.len()
        invariant
            i <= names@.len(),
            want == name_keys(names.deep_view()),
            keys@.len() == i,
            keys_ints(keys@) == want.take(i as int),
        decreases names@.len() - i,
    {
        let ghost before = keys_ints(keys@);
        let mut k: Vec<i128> = Vec::new();
        push_text_key(&mut k, names[i].as_str());
        assert(key_ints(k@) =~= want[i as int]);
        keys.push(k);
        proof {
            assert(keys_ints(keys@) =~= before.push(want[i as int]));
            assert(want.take(i + 1) =~= want.take(i as int).push(want[i as int]));
        }
        i += 1;
    }
    assert(want.take(i as int) =~= want);
    keys
}

/// Each name with how often it occurs, the most frequent first, then by name.
pub fn ranked(names: &[String]) -> (r: Vec<Count>)
    ensures
        r.deep_view() == ranking(names.deep_view()),
{
    let ghost nv = names.deep_view();
    let keys = keys_of_names(names);
    let gs = group(&keys);
    let ghost gv = group_ints(gs@);
    let ghost want = counted(nv);
    let mut cs: Vec<Count> = Vec::new();
    let mut order: Vec<Vec<i128>> = Vec::new();
    let mut n: usize = 0;
    assert(gs@.len() == gv.len());
    while n < gs.len()
        invariant
            n <= gs@.len(),
            nv == names.deep_view(),
            gv == group_ints(gs@),
            gv == groups_of(name_keys(nv)),
            want == counted(nv),
            forall|k: int, i: int| 0 <= k < gs@.len() && 0 <= i < gs@[k]@.len() ==> (#[trigger] gs@[k]@[i]) < names@.len(),
            forall|k: int| 0 <= k < gs@.len() ==> (#[trigger] gs@[k])@.len() > 0,
            cs.deep_view() == want.take(n as int),
            keys_ints(order@) == want.take(n as int).map_values(|c: CountV| count_key(c)),
            order@.len() == cs@.len(),
        decreases gs@.len() - n,
    {
        let ghost before = cs.deep_view();
        let ghost before_k = keys_ints(order@);
        proof {
            assert(gv[n as int] == place_ints(gs@[n as int]@));
            assert(gs@[n as int]@.len() > 0);
            assert(gv[n as int][0] == gs@[n as int]@[0]);
        }
        let c = Count { name: names[gs[n][0]].clone(), count: gs[n].len() };
        let ghost cv = c.deep_view();
        assert(cv =~= want[n as int]);
        let mut k: Vec<i128> = Vec::new();
        k.push(-(c.count as i128));
        push_text_key(&mut k, c.name.as_str());
        assert(key_ints(k@) =~= count_key(cv));
        cs.push(c);
        order.push(k);
        proof {
            assert(cs.deep_view() =~= before.push(cv));
            assert(want.take(n + 1) =~= want.take(n as int).push(cv));
            assert(keys_ints(order@) =~= before_k.push(count_key(cv)));
            assert(want.take(n + 1).map_values(|c: CountV| count_key(c)) =~= before_k.push(count_key(cv)));
        }
        n += 1;
    }
    assert(want.take(n as int) =~= want);
    let o = sort_order(&order);
    proof {
        lemma_order_len(keys_ints(order@), place_ints(o@));
    }
    let r = arrange(cs, &o);
    assert(r.deep_view() =~= ranking(nv));
    r
}

// ---- the overview ------------------------------------------------------------------------

/// A question about a record.
#[derive(Clone, Copy, PartialEq, Eq, Structural, Debug)]
pub enum Ask {
    /// The file could not be read.
    Unreadable,
    /// It has a cover.
    Covered,
    /// It has none.
    Coverless,
    /// It has no title.
    Untitled,
    /// It has no artist.
    NoArtist,
    /// It has no album.
    NoAlbum,
    /// It has all three.
    Tagged,
    /// It has timed lyrics, beside or inside it.
    Timed,
    /// It has plain lyrics at best.
    PlainAtBest,
    /// It has no lyrics at all.
    NoLyrics,
    /// The lyrics beside it are in this tier.
    Sidecar(Tier),
    /// The lyrics inside it are in this tier.
    Embedded(Tier),
}

/// What is answered of a record.
pub open spec fn answer(q: Ask, r: RecordV) -> bool {
    match q {
        Ask::Unreadable => !r.readable,
        Ask::Covered => r.has_cover,
        Ask::Coverless => !r.has_cover,
        Ask::Untitled => r.missing_title,
        Ask::NoArtist => r.missing_artist,
        Ask::NoAlbum => r.missing_album,
        Ask::Tagged => !r.missing_title && !r.missing_artist && !r.missing_album,
        Ask::Timed => tier_rank(better_tier(r.sidecar, r.embedded)) >= 2,
        Ask::PlainAtBest => better_tier(r.sidecar, r.embedded) == Tier::Plain,
        Ask::NoLyrics => better_tier(r.sidecar, r.embedded) == Tier::Nothing,
        Ask::Sidecar(t) => r.sidecar == t,
        Ask::Embedded(t) => r.embedded == t,
    }
}

/// Of how many of the first `n` records a question is answered with yes.
pub open spec fn count_of(rs: Seq<RecordV>, q: Ask, n: int) -> nat
    decreases n,
{
    if n <= 0 {
        0
    } else if answer(q, rs[n - 1]) {
        count_of(rs, q, n - 1) + 1
    } else {
        count_of(rs, q, n - 1)
    }
}

fn ask(q: Ask, r: &Record) -> (a: bool)
    ensures
        a == answer(q, r.deep_view()),
{
    match q {
        Ask::Unreadable => !r.readable,
        Ask::Covered => r.has_cover,
        Ask::Coverless => !r.has_cover,
        Ask::Untitled => r.missing_title,
        Ask::NoArtist => r.missing_artist,
        Ask::NoAlbum => r.missing_album,
        Ask::Tagged => !r.missing_title && !r.missing_artist && !r.missing_album,
        Ask::Timed => rank(better(r.sidecar, r.embedded)) >= 2,
        Ask::PlainAtBest => better(r.sidecar, r.embedded) == Tier::Plain,
        Ask::NoLyrics => better(r.sidecar, r.embedded) == Tier::Nothing,
        Ask::Sidecar(t) => r.sidecar == t,
        Ask::Embedded(t) => r.embedded == t,
    }
}

fn count(records: &[Record], q: Ask) -> (r: usize)
    ensures
        r == count_of(records.deep_view(), q, records@.len() as int),
{
    let ghost rs = records.deep_view();
    let mut c: usize = 0;
    let mut i: usize = 0;
    while i < records.len()
        invariant
            c <= i <= records@.len(),
            rs == records.deep_view(),
            c == count_of(rs, q, i as int),
        decreases records@.len() - i,
    {
        assert(rs[i as int] == records@[i as int].deep_view());
        if ask(q, &records[i]) {
            c += 1;
        }
        i += 1;
    }
    c
}

/// The sum of a number over the first `n` records.
pub open spec fn sum_of(rs: Seq<RecordV>, f: spec_fn(RecordV) -> nat, n: int) -> nat
    decreases n,
{
    if n <= 0 {
        0
    } else {
        sum_of(rs, f, n - 1) + f(rs[n - 1])
    }
}

/// A number that fits, or the largest that does.
pub open spec fn capped(n: nat) -> int {
    if n <= u64::MAX {
        n as int
    } else {
        u64::MAX as int
    }
}

fn add_capped(a: u64, b: u64) -> (r: u64)
    ensures
        r == capped((a + b) as nat),
{
    if u64::MAX - a < b {
        u64::MAX
    } else {
        a + b
    }
}

/// The known bitrates of the first `n` records.
pub open spec fn bitrates(rs: Seq<RecordV>, n: int) -> Seq<u32>
    decreases n,
{
    if n <= 0 {
        seq![]
    } else {
        match rs[n - 1].bitrate {
            Some(k) => bitrates(rs, n - 1).push(k),
            None => bitrates(rs, n - 1),
        }
    }
}

/// The sum of the first `n` bitrates.
pub open spec fn bitrate_sum(b: Seq<u32>, n: int) -> int
    decreases n,
{
    if n <= 0 {
        0
    } else {
        bitrate_sum(b, n - 1) + b[n - 1]
    }
}

/// How many of the first `n` bitrates are counted under nominal bitrate `k`.
pub open spec fn bucket_count(b: Seq<u32>, k: int, n: int) -> nat
    decreases n,
{
    if n <= 0 {
        0
    } else if bucket_of(b[n - 1]) == k {
        bucket_count(b, k, n - 1) + 1
    } else {
        bucket_count(b, k, n - 1)
    }
}

/// The first `k` nominal bitrates that occur, with how often they do.
pub open spec fn bucket_counts(b: Seq<u32>, k: int) -> Seq<CountV>
    decreases k,
{
    if k <= 0 {
        seq![]
    } else {
        let n = bucket_count(b, k - 1, b.len() as int);
        if n > 0 {
            bucket_counts(b, k - 1).push(CountV { name: bucket_names()[k - 1], count: n as int })
        } else {
            bucket_counts(b, k - 1)
        }
    }
}

#[derive(Debug)]
pub struct BitrateStats {
    /// How often each nominal bitrate occurs, in order.
    pub distribution: Vec<Count>,
    pub min: u32,
    pub avg: u32,
    pub max: u32,
    /// Tracks whose bitrate is not known.
    pub unknown: usize,
}

/// What the bitrates of the records come to; zeros where none is known.
pub open spec fn bitrate_summary(s: BitrateStats, b: Seq<u32>, total: int) -> bool {
    &&& s.distribution.deep_view() == bucket_counts(b, 7)
    &&& s.unknown == total - b.len()
    &&& if b.len() == 0 {
        s.min == 0 && s.avg == 0 && s.max == 0
    } else {
        &&& b.contains(s.min) && forall|i: int| 0 <= i < b.len() ==> s.min <= #[trigger] b[i]
        &&& b.contains(s.max) && forall|i: int| 0 <= i < b.len() ==> #[trigger] b[i] <= s.max
        &&& s.avg == bitrate_sum(b, b.len() as int) / (b.len() as int)
    }
}

fn known_bitrates(records: &[Record]) -> (r: Vec<u32>)
    ensures
        r@ == bitrates(records.deep_view(), records@.len() as int),
        r@.len() <= records@.len(),
{
    let ghost rs = records.deep_view();
    let mut out: Vec<u32> = Vec::new();
    let mut i: usize = 0;
    while i < records.len()
        invariant
            i <= records@.len(),
            rs == records.deep_view(),
            out@ == bitrates(rs, i as int),
            out@.len() <= i,
        decreases records@.len() - i,
    {
        assert(rs[i as int] == records@[i as int].deep_view());
        if let Some(k) = records[i].bitrate {
            out.push(k);
        }
        i += 1;
    }
    out
}

fn count_bucket(b: &[u32], k: usize) -> (r: usize)
    ensures
        r == bucket_count(b@, k as int, b@.len() as int),
{
    let mut c: usize = 0;
    let mut n: usize = 0;
    while n < b.len()
        invariant
            c <= n <= b@.len(),
            c == bucket_count(b@, k as int, n as int),
        decreases b@.len() - n,
    {
        if bucket_index(b[n]) == k {
            c += 1;
        }
        n += 1;
    }
    c
}

fn summarize_bitrates(records: &[Record]) -> (r: BitrateStats)
    ensures
        bitrate_summary(
            r,
            bitrates(records.deep_view(), records@.len() as int),
            records@.len() as int,
        ),
{
    let b = known_bitrates(records);
    let mut distribution: Vec<Count> = Vec::new();
    let mut k: usize = 0;
    assert(distribution.deep_view() =~= bucket_counts(b@, 0));
    while k < 7
        invariant
            k <= 7,
            distribution.deep_view() == bucket_counts(b@, k as int),
        decreases 7 - k,
    {
        let ghost before = distribution.deep_view();
        let c = count_bucket(&b, k);
        if c > 0 {
            distribution.push(Count { name: bucket_name(k).to_string(), count: c });
            assert(distribution.deep_view() =~= before.push(CountV { name: bucket_names()[k as int], count: c as int }));
        }
        k += 1;
    }
    let unknown: usize = records.len() - b.len();
    if b.len() == 0 {
        return BitrateStats { distribution, min: 0, avg: 0, max: 0, unknown };
    }
    let mut min: u32 = b[0];
    let mut max: u32 = b[0];
    let mut sum: u128 = 0;
    let mut n: usize = 0;
    assert(b@.contains(b@[0]));
    while n < b.len()
        invariant
            n <= b@.len(),
            b@.len() > 0,
            b@.contains(min),
            b@.contains(max),
            min <= b@[0] <= max,
            forall|i: int| 0 <= i < n ==> min <= #[trigger] b@[i] <= max,
            sum == bitrate_sum(b@, n as int),
            sum <= n * 0xffff_ffff,
            sum <= n * max,
        decreases b@.len() - n,
    {
        let x: u32 = b[n];
        assert(b@.contains(b@[n as int]));
        let ghost old_max = max;
        if x < min {
            min = x;
        }
        if x > max {
            max = x;
        }
        proof {
            assert(n * old_max <= n * max) by (nonlinear_arith)
                requires
                    old_max <= max,
                    n >= 0,
            ;
            assert((n + 1) * max == n * max + max) by (nonlinear_arith);
            assert((n + 1) * 0xffff_ffff == n * 0xffff_ffff + 0xffff_ffff);
        }
        sum = sum + x as u128;
        n += 1;
    }
    let len: u128 = b.len() as u128;
    proof {
        assert(sum / len <= max) by (nonlinear_arith)
            requires
                len > 0,
                sum <= len * max,
        ;
    }
    let avg: u32 = (sum / len) as u32;
    BitrateStats { distribution, min, avg, max, unknown }
}

#[derive(Debug)]
pub struct LyricStats {
    /// The tiers of the `.lrc` files.
    pub sidecar: TierCounts,
    /// The tiers of the embedded lyrics.
    pub embedded: TierCounts,
    /// Tracks with timed lyrics in either place.
    pub timed_anywhere: usize,
    /// Tracks with plain lyrics at best.
    pub plain_only: usize,
    /// Tracks with no lyrics at all.
    pub none_anywhere: usize,
}

#[derive(Debug)]
pub struct Stats {
    pub root: String,
    /// Audio tracks found.
    pub tracks: usize,
    /// Tracks that could not be read.
    pub unreadable: usize,
    pub total_bytes: u64,
    pub total_duration_secs: u64,
    /// How often each extension occurs, the most frequent first.
    pub formats: Vec<Count>,
    pub bitrate_kbps: BitrateStats,
    /// How often each sample rate occurs, the most frequent first.
    pub sample_rates: Vec<Count>,
    /// How often each channel layout occurs, the most frequent first.
    pub channels: Vec<Count>,
    pub with_cover: usize,
    pub without_cover: usize,
    pub missing_title: usize,
    pub missing_artist: usize,
    pub missing_album: usize,
    /// Tracks with title, artist and album.
    pub fully_tagged: usize,
    /// Different artists.
    pub artists: usize,
    /// Different albums.
    pub albums: usize,
    pub lyrics: LyricStats,
}

/// The extensions of the records.
pub open spec fn exts_of(rs: Seq<RecordV>) -> Seq<Seq<char>> {
    rs.map_values(|r: RecordV| r.ext)
}

pub open spec fn rates_of(rs: Seq<RecordV>) -> Seq<Seq<char>> {
    rs.map_values(|r: RecordV| rate_name(r.sample_rate))
}

pub open spec fn layouts_of(rs: Seq<RecordV>) -> Seq<Seq<char>> {
    rs.map_values(|r: RecordV| channel_name(r.channels))
}

/// The artists of the first `n` records.
pub open spec fn artists_of(rs: Seq<RecordV>, n: int) -> Seq<Seq<char>>
    decreases n,
{
    if n <= 0 {
        seq![]
    } else {
        match rs[n - 1].artist_key {
            Some(a) => artists_of(rs, n - 1).push(a),
            None => artists_of(rs, n - 1),
        }
    }
}

/// The albums of the first `n` records.
pub open spec fn albums_of(rs: Seq<RecordV>, n: int) -> Seq<(Seq<char>, Seq<char>)>
    decreases n,
{
    if n <= 0 {
        seq![]
    } else {
        match rs[n - 1].album_key {
            Some(a) => albums_of(rs, n - 1).push(a),
            None => albums_of(rs, n - 1),
        }
    }
}

proof fn lemma_text_key_injective(a: Seq<char>, b: Seq<char>)
    requires
        text_key(a) == text_key(b),
    ensures
        a == b,
{
    assert(text_key(a) + seq![] =~= text_key(a));
    assert(text_key(b) + seq![] =~= text_key(b));
    lemma_text_key_front(a, seq![], b, seq![]);
}

/// As many different names as different keys.
proof fn lemma_distinct_names(names: Seq<Seq<char>>)
    ensures
        name_keys(names).to_set().len() == names.to_set().len(),
{
    let f = |s: Seq<char>| text_key(s);
    let keys = name_keys(names);
    assert forall|a: Seq<char>, b: Seq<char>| names.to_set().contains(a) && names.to_set().contains(b) && f(a) == f(b) implies a
        == b by {
        lemma_text_key_injective(a, b);
    }
    assert(keys.to_set() =~= names.to_set().map(f)) by {
        assert forall|k: Seq<int>| keys.to_set().contains(k) implies names.to_set().map(f).contains(k) by {
            let i = choose|i: int| 0 <= i < keys.len() && keys[i] == k;
            assert(names.to_set().contains(names[i]));
            assert(f(names[i]) == k);
        }
        assert forall|k: Seq<int>| names.to_set().map(f).contains(k) implies keys.to_set().contains(k) by {
            let a = choose|a: Seq<char>| names.to_set().contains(a) && k == f(a);
            let i = choose|i: int| 0 <= i < names.len() && names[i] == a;
            assert(keys[i] == k);
        }
    }
    vstd::seq_lib::seq_to_set_is_finite(names);
    vstd::set_lib::lemma_map_size(names.to_set(), keys.to_set(), f);
}

pub open spec fn pair_key(p: (Seq<char>, Seq<char>)) -> Seq<int> {
    text_key(p.0) + text_key(p.1)
}

pub open spec fn pair_keys(ps: Seq<(Seq<char>, Seq<char>)>) -> Seq<Seq<int>> {
    ps.map_values(|p: (Seq<char>, Seq<char>)| pair_key(p))
}

/// As many different pairs as different keys.
proof fn lemma_distinct_pairs(ps: Seq<(Seq<char>, Seq<char>)>)
    ensures
        pair_keys(ps).to_set().len() == ps.to_set().len(),
{
    let f = |p: (Seq<char>, Seq<char>)| pair_key(p);
    let keys = pair_keys(ps);
    assert forall|a: (Seq<char>, Seq<char>), b: (Seq<char>, Seq<char>)|
        ps.to_set().contains(a) && ps.to_set().contains(b) && f(a) == f(b) implies a == b by {
        lemma_text_key_front(a.0, text_key(a.1), b.0, text_key(b.1));
        lemma_text_key_injective(a.1, b.1);
    }
    assert(keys.to_set() =~= ps.to_set().map(f)) by {
        assert forall|k: Seq<int>| keys.to_set().contains(k) implies ps.to_set().map(f).contains(k) by {
            let i = choose|i: int| 0 <= i < keys.len() && keys[i] == k;
            assert(ps.to_set().contains(ps[i]));
            assert(f(ps[i]) == k);
        }
        assert forall|k: Seq<int>| ps.to_set().map(f).contains(k) implies keys.to_set().contains(k) by {
            let a = choose|a: (Seq<char>, Seq<char>)| ps.to_set().contains(a) && k == f(a);
            let i = choose|i: int| 0 <= i < ps.len() && ps[i] == a;
            assert(keys[i] == k);
        }
    }
    vstd::seq_lib::seq_to_set_is_finite(ps);
    vstd::set_lib::lemma_map_size(ps.to_set(), keys.to_set(), f);
}

fn count_artists(records: &[Record]) -> (r: usize)
    ensures
        r == artists_of(records.deep_view(), records@.len() as int).to_set().len(),
{
    let ghost rs = records.deep_view();
    let mut names: Vec<String> = Vec::new();
    let mut i: usize = 0;
    assert(names.deep_view() =~= artists_of(rs, 0));
    while i < records.len()
        invariant
            i <= records@.len(),
            rs == records.deep_view(),
            names.deep_view() == artists_of(rs, i as int),
        decreases records@.len() - i,
    {
        let ghost before = names.deep_view();
        assert(rs[i as int] == records@[i as int].deep_view());
        if let Some(a) = &records[i].artist_key {
            names.push(a.clone());
            assert(names.deep_view() =~= before.push(a@));
        }
        i += 1;
    }
    let keys = keys_of_names(&names);
    let gs = group(&keys);
    proof {
        law_group_count(keys_ints(keys@));
        lemma_distinct_names(names.deep_view());
        assert(gs@.len() == group_ints(gs@).len());
    }
    gs.len()
}

fn count_albums(records: &[Record]) -> (r: usize)
    ensures
        r == albums_of(records.deep_view(), records@.len() as int).to_set().len(),
{
    let ghost rs = records.deep_view();
    let mut keys: Vec<Vec<i128>> = Vec::new();
    let mut i: usize = 0;
    assert(keys_ints(keys@) =~= pair_keys(albums_of(rs, 0)));
    while i < records.len()
        invariant
            i <= records@.len(),
            rs == records.deep_view(),
            keys_ints(keys@) == pair_keys(albums_of(rs, i as int)),
        decreases records@.len() - i,
    {
        let ghost before = keys_ints(keys@);
        assert(rs[i as int] == records@[i as int].deep_view());
        if let Some(a) = &records[i].album_key {
            let mut k: Vec<i128> = Vec::new();
            push_text_key(&mut k, a.0.as_str());
            push_text_key(&mut k, a.1.as_str());
            assert(key_ints(k@) =~= pair_key((a.0@, a.1@)));
            keys.push(k);
            proof {
                assert(keys_ints(keys@) =~= before.push(pair_key((a.0@, a.1@))));
                assert(pair_keys(albums_of(rs, i + 1)) =~= before.push(pair_key((a.0@, a.1@))));
            }
        }
        i += 1;
    }
    let gs = group(&keys);
    proof {
        law_group_count(keys_ints(keys@));
        lemma_distinct_pairs(albums_of(rs, i as int));
        assert(gs@.len() == group_ints(gs@).len());
    }
    gs.len()
}

fn names_of_exts(records: &[Record]) -> (r: Vec<String>)
    ensures
        r.deep_view() == exts_of(records.deep_view()),
{
    let ghost want = exts_of(records.deep_view());
    let mut out: Vec<String> = Vec::new();
    let mut i: usize = 0;
    while i < records.len()
        invariant
            i <= records@.len(),
            want == exts_of(records.deep_view()),
            out@.len() == i,
            out.deep_view() == want.take(i as int),
        decreases records@.len() - i,
    {
        let ghost before = out.deep_view();
        out.push(records[i].ext.clone());
        proof {
            assert(want[i as int] == out@[i as int]@);
            assert(out.deep_view() =~= before.push(want[i as int]));
            assert(want.take(i + 1) =~= want.take(i as int).push(want[i as int]));
        }
        i += 1;
    }
    assert(want.take(i as int) =~= want);
    out
}

fn names_of_rates(records: &[Record]) -> (r: Vec<String>)
    ensures
        r.deep_view() == rates_of(records.deep_view()),
{
    let ghost want = rates_of(records.deep_view());
    let mut out: Vec<String> = Vec::new();
    let mut i: usize = 0;
    while i < records.len()
        invariant
            i <= records@.len(),
            want == rates_of(records.deep_view()),
            out@.len() == i,
            out.deep_view() == want.take(i as int),
        decreases records@.len() - i,
    {
        let ghost before = out.deep_view();
        out.push(rate_label(records[i].sample_rate));
        proof {
            assert(want[i as int] == out@[i as int]@);
            assert(out.deep_view() =~= before.push(want[i as int]));
            assert(want.take(i + 1) =~= want.take(i as int).push(want[i as int]));
        }
        i += 1;
    }
    assert(want.take(i as int) =~= want);
    out
}

fn names_of_layouts(records: &[Record]) -> (r: Vec<String>)
    ensures
        r.deep_view() == layouts_of(records.deep_view()),
{
    let ghost want = layouts_of(records.deep_view());
    let mut out: Vec<String> = Vec::new();
    let mut i: usize = 0;
    while i < records.len()
        invariant
            i <= records@.len(),
            want == layouts_of(records.deep_view()),
            out@.len() == i,
            out.deep_view() == want.take(i as int),
        decreases records@.len() - i,
    {
        let ghost before = out.deep_view();
        out.push(channel_label(records[i].channels));
        proof {
            assert(want[i as int] == out@[i as int]@);
            assert(out.deep_view() =~= before.push(want[i as int]));
            assert(want.take(i + 1) =~= want.take(i as int).push(want[i as int]));
        }
        i += 1;
    }
    assert(want.take(i as int) =~= want);
    out
}

fn total_bytes_of(records: &[Record]) -> (r: u64)
    ensures
        r == capped(sum_of(records.deep_view(), |r: RecordV| r.bytes as nat, records@.len() as int)),
{
    let ghost rs = records.deep_view();
    let mut total: u64 = 0;
    let mut i: usize = 0;
    while i < records.len()
        invariant
            i <= records@.len(),
            rs == records.deep_view(),
            total == capped(sum_of(rs, |r: RecordV| r.bytes as nat, i as int)),
        decreases records@.len() - i,
    {
        assert(rs[i as int] == records@[i as int].deep_view());
        total = add_capped(total, records[i].bytes);
        i += 1;
    }
    total
}

fn total_duration_of(records: &[Record]) -> (r: u64)
    ensures
        r == capped(sum_of(records.deep_view(), |r: RecordV| r.duration as nat, records@.len() as int)),
{
    let ghost rs = records.deep_view();
    let mut total: u64 = 0;
    let mut i: usize = 0;
    while i < records.len()
        invariant
            i <= records@.len(),
            rs == records.deep_view(),
            total == capped(sum_of(rs, |r: RecordV| r.duration as nat, i as int)),
        decreases records@.len() - i,
    {
        assert(rs[i as int] == records@[i as int].deep_view());
        total = add_capped(total, records[i].duration);
        i += 1;
    }
    total
}

/// The overview of what was seen under `root`.
pub fn collect(root: &str, records: &[Record]) -> (s: Stats)
    ensures
        s.root@ == root@,
        s.tracks == records@.len(),
        s.unreadable == count_of(records.deep_view(), Ask::Unreadable, records@.len() as int),
        s.with_cover == count_of(records.deep_view(), Ask::Covered, records@.len() as int),
        s.without_cover == count_of(records.deep_view(), Ask::Coverless, records@.len() as int),
        s.missing_title == count_of(records.deep_view(), Ask::Untitled, records@.len() as int),
        s.missing_artist == count_of(records.deep_view(), Ask::NoArtist, records@.len() as int),
        s.missing_album == count_of(records.deep_view(), Ask::NoAlbum, records@.len() as int),
        s.fully_tagged == count_of(records.deep_view(), Ask::Tagged, records@.len() as int),
        s.lyrics.timed_anywhere == count_of(records.deep_view(), Ask::Timed, records@.len() as int),
        s.lyrics.plain_only == count_of(records.deep_view(), Ask::PlainAtBest, records@.len() as int),
        s.lyrics.none_anywhere == count_of(records.deep_view(), Ask::NoLyrics, records@.len() as int),
        s.lyrics.sidecar.none == count_of(records.deep_view(), Ask::Sidecar(Tier::Nothing), records@.len() as int),
        s.lyrics.sidecar.plain == count_of(records.deep_view(), Ask::Sidecar(Tier::Plain), records@.len() as int),
        s.lyrics.sidecar.generated == count_of(records.deep_view(), Ask::Sidecar(Tier::Generated), records@.len() as int),
        s.lyrics.sidecar.synced == count_of(records.deep_view(), Ask::Sidecar(Tier::Synced), records@.len() as int),
        s.lyrics.embedded.none == count_of(records.deep_view(), Ask::Embedded(Tier::Nothing), records@.len() as int),
        s.lyrics.embedded.plain == count_of(records.deep_view(), Ask::Embedded(Tier::Plain), records@.len() as int),
        s.lyrics.embedded.generated == count_of(records.deep_view(), Ask::Embedded(Tier::Generated), records@.len() as int),
        s.lyrics.embedded.synced == count_of(records.deep_view(), Ask::Embedded(Tier::Synced), records@.len() as int),
        s.total_bytes == capped(sum_of(records.deep_view(), |r: RecordV| r.bytes as nat, records@.len() as int)),
        s.total_duration_secs == capped(
            sum_of(records.deep_view(), |r: RecordV| r.duration as nat, records@.len() as int),
        ),
        s.formats.deep_view() == ranking(exts_of(records.deep_view())),
        bitrate_summary(
            s.bitrate_kbps,
            bitrates(records.deep_view(), records@.len() as int),
            records@.len() as int,
        ),
        s.sample_rates.deep_view() == ranking(rates_of(records.deep_view())),
        s.channels.deep_view() == ranking(layouts_of(records.deep_view())),
        s.artists == artists_of(records.deep_view(), records@.len() as int).to_set().len(),
        s.albums == albums_of(records.deep_view(), records@.len() as int).to_set().len(),
{
    Stats {
        root: root.to_string(),
        tracks: records.len(),
        unreadable: count(records, Ask::Unreadable),
        total_bytes: total_bytes_of(records),
        total_duration_secs: total_duration_of(records),
        formats: ranked(&names_of_exts(records)),
        bitrate_kbps: summarize_bitrates(records),
        sample_rates: ranked(&names_of_rates(records)),
        channels: ranked(&names_of_layouts(records)),
        with_cover: count(records, Ask::Covered),
        without_cover: count(records, Ask::Coverless),
        missing_title: count(records, Ask::Untitled),
        missing_artist: count(records, Ask::NoArtist),
        missing_album: count(records, Ask::NoAlbum),
        fully_tagged: count(records, Ask::Tagged),
        artists: count_artists(records),
        albums: count_albums(records),
        lyrics: LyricStats {
            sidecar: TierCounts {
                none: count(records, Ask::Sidecar(Tier::Nothing)),
                plain: count(records, Ask::Sidecar(Tier::Plain)),
                generated: count(records, Ask::Sidecar(Tier::Generated)),
                synced: count(records, Ask::Sidecar(Tier::Synced)),
            },
            embedded: TierCounts {
                none: count(records, Ask::Embedded(Tier::Nothing)),
                plain: count(records, Ask::Embedded(Tier::Plain)),
                generated: count(records, Ask::Embedded(Tier::Generated)),
                synced: count(records, Ask::Embedded(Tier::Synced)),
            },
            timed_anywhere: count(records, Ask::Timed),
            plain_only: count(records, Ask::PlainAtBest),
            none_anywhere: count(records, Ask::NoLyrics),
        },
    }
}

/// The parts add up: every track has a cover or has none, is in one tier beside it and
/// in one inside it, and is timed somewhere, plain at best, or without lyrics.
pub proof fn law_parts_add_up(rs: Seq<RecordV>, n: int)
    requires
        0 <= n <= rs.len(),
    ensures
        count_of(rs, Ask::Covered, n) + count_of(rs, Ask::Coverless, n) == n,
        count_of(rs, Ask::Sidecar(Tier::Nothing), n) + count_of(rs, Ask::Sidecar(Tier::Plain), n) + count_of(rs, Ask::Sidecar(Tier::Generated), n) + count_of(rs, Ask::Sidecar(Tier::Synced), n) == n,
        count_of(rs, Ask::Embedded(Tier::Nothing), n) + count_of(rs, Ask::Embedded(Tier::Plain), n) + count_of(rs, Ask::Embedded(Tier::Generated), n) + count_of(rs, Ask::Embedded(Tier::Synced), n) == n,
        count_of(rs, Ask::Timed, n) + count_of(rs, Ask::PlainAtBest, n) + count_of(rs, Ask::NoLyrics, n) == n,
    decreases n,
{
    if n > 0 {
        law_parts_add_up(rs, n - 1);
    }
}

/// The counts of a distribution, added up.
pub open spec fn count_total(cs: Seq<CountV>) -> int {
    total(cs.map_values(|c: CountV| c.count))
}

/// A ranking counts every name once.
proof fn lemma_ranking_total(names: Seq<Seq<char>>)
    ensures
        count_total(ranking(names)) == names.len(),
{
    let cs = counted(names);
    let keys = cs.map_values(|c: CountV| count_key(c));
    let v = cs.map_values(|c: CountV| c.count);
    lemma_total_sorted(v, keys);
    lemma_order_exists(keys);
    assert(ranking(names).map_values(|c: CountV| c.count) =~= arranged(v, order_of(keys)));
    law_group_sizes(name_keys(names));
    assert(v =~= sizes(groups_of(name_keys(names))));
}

/// Of the bitrates, those in the first `k` buckets.
spec fn below(b: Seq<u32>, k: int, n: int) -> nat
    decreases n,
{
    if n <= 0 {
        0
    } else if bucket_of(b[n - 1]) < k {
        below(b, k, n - 1) + 1
    } else {
        below(b, k, n - 1)
    }
}

proof fn lemma_below_step(b: Seq<u32>, k: int, n: int)
    ensures
        below(b, k + 1, n) == below(b, k, n) + bucket_count(b, k, n),
    decreases n,
{
    if n > 0 {
        lemma_below_step(b, k, n - 1);
    }
}

proof fn lemma_below_ends(b: Seq<u32>, n: int)
    requires
        0 <= n,
    ensures
        below(b, 0, n) == 0,
        below(b, 7, n) == n,
    decreases n,
{
    if n > 0 {
        lemma_below_ends(b, n - 1);
    }
}

proof fn lemma_buckets_total(b: Seq<u32>, k: int)
    requires
        0 <= k,
    ensures
        count_total(bucket_counts(b, k)) == below(b, k, b.len() as int),
    decreases k,
{
    let cs = bucket_counts(b, k);
    if k == 0 {
        lemma_below_ends(b, b.len() as int);
    } else {
        lemma_buckets_total(b, k - 1);
        lemma_below_step(b, k - 1, b.len() as int);
        let before = bucket_counts(b, k - 1);
        if bucket_count(b, k - 1, b.len() as int) > 0 {
            let v = cs.map_values(|c: CountV| c.count);
            assert(v.drop_last() =~= before.map_values(|c: CountV| c.count));
            assert(v.last() == bucket_count(b, k - 1, b.len() as int));
        }
    }
}

/// The distributions add up: every track has one format, one sample rate and one channel
/// layout, and its bitrate is in one bucket or not known.
pub proof fn law_distributions_add_up(rs: Seq<RecordV>)
    ensures
        count_total(ranking(exts_of(rs))) == rs.len(),
        count_total(ranking(rates_of(rs))) == rs.len(),
        count_total(ranking(layouts_of(rs))) == rs.len(),
        count_total(bucket_counts(bitrates(rs, rs.len() as int), 7)) + (rs.len() - bitrates(rs, rs.len() as int).len())
            == rs.len(),
{
    lemma_ranking_total(exts_of(rs));
    lemma_ranking_total(rates_of(rs));
    lemma_ranking_total(layouts_of(rs));
    let b = bitrates(rs, rs.len() as int);
    lemma_buckets_total(b, 7);
    lemma_below_ends(b, b.len() as int);
}

/// A count is how many records answer the question with yes.
pub proof fn law_counts(rs: Seq<RecordV>, q: Ask)
    ensures
        count_of(rs, q, rs.len() as int) == rs.filter(|x: RecordV| answer(q, x)).len(),
{
    lemma_counts(rs, q, rs.len() as int);
    assert(rs.take(rs.len() as int) =~= rs);
}

proof fn lemma_counts(rs: Seq<RecordV>, q: Ask, n: int)
    requires
        0 <= n <= rs.len(),
    ensures
        count_of(rs, q, n) == rs.take(n).filter(|x: RecordV| answer(q, x)).len(),
    decreases n,
{
    reveal(Seq::filter);
    if n > 0 {
        lemma_counts(rs, q, n - 1);
        assert(rs.take(n).drop_last() =~= rs.take(n - 1));
        assert(rs.take(n).last() == rs[n - 1]);
    }
}

/// What the questions ask: timed lyrics are generated or synced ones on either side, plain lyrics
/// at best are plain ones on one side and nothing better on the other, and no lyrics are none on
/// either.
pub proof fn law_answers(r: RecordV)
    ensures
        answer(Ask::Timed, r) <==> r.sidecar is Generated || r.sidecar is Synced || r.embedded is Generated || r.embedded is Synced,
        answer(Ask::PlainAtBest, r) <==> (r.sidecar is Plain && (r.embedded is Plain || r.embedded is Nothing)) || (
        r.sidecar is Nothing && r.embedded is Plain),
        answer(Ask::NoLyrics, r) <==> r.sidecar is Nothing && r.embedded is Nothing,
        answer(Ask::Unreadable, r) <==> !r.readable,
        answer(Ask::Covered, r) <==> r.has_cover,
        answer(Ask::Coverless, r) <==> !r.has_cover,
        answer(Ask::Untitled, r) <==> r.missing_title,
        answer(Ask::NoArtist, r) <==> r.missing_artist,
        answer(Ask::NoAlbum, r) <==> r.missing_album,
        answer(Ask::Tagged, r) <==> !(r.missing_title || r.missing_artist || r.missing_album),
        forall|t: Tier| #[trigger] answer(Ask::Sidecar(t), r) <==> r.sidecar == t,
        forall|t: Tier| #[trigger] answer(Ask::Embedded(t), r) <==> r.embedded == t,
{
}

/// The better of two tiers is one of them and no worse than either: nothing is worse than plain
/// lyrics, those than generated ones, and those than synced ones. It does not matter which comes
/// first.
pub proof fn law_better(a: Tier, b: Tier)
    ensures
        better_tier(a, b) == a || better_tier(a, b) == b,
        better_tier(a, b) == better_tier(b, a),
        a is Nothing ==> better_tier(a, b) == b,
        a is Synced ==> better_tier(a, b) == a,
        a is Plain && b is Generated ==> better_tier(a, b) == b,
{
}

/// A ranking names each name that occurs once, with how often it does, and no other; a name that
/// occurs more often comes first, and of two that occur as often the one that comes first in the
/// order of texts.
pub proof fn law_ranking(names: Seq<Seq<char>>)
    ensures
        ({
            let r = ranking(names);
            &&& forall|i: int|
                0 <= i < r.len() ==> names.contains((#[trigger] r[i]).name) && r[i].count == names.filter(
                    |x: Seq<char>| x == r[i].name,
                ).len()
            &&& forall|x: Seq<char>| #[trigger] names.contains(x) ==> exists|i: int| 0 <= i < r.len() && (#[trigger] r[i]).name == x
            &&& forall|i: int, j: int| 0 <= i < j < r.len() ==> (#[trigger] r[i]).name != (#[trigger] r[j]).name
            &&& forall|i: int, j: int|
                0 <= i < j < r.len() ==> (#[trigger] r[i]).count > (#[trigger] r[j]).count || (r[i].count == r[j].count
                    && less(text_key(r[i].name), text_key(r[j].name)))
        }),
{
    let cs = counted(names);
    let keys = cs.map_values(|c: CountV| count_key(c));
    law_sorted(cs, keys);
    let o = order_of(keys);
    let r = ranking(names);
    lemma_counted(names);
    assert forall|x: Seq<char>| #[trigger] names.contains(x) implies exists|i: int| 0 <= i < r.len() && (#[trigger] r[i]).name == x by {
        let k = choose|k: int| 0 <= k < cs.len() && (#[trigger] cs[k]).name == x;
        assert(o.contains(k));
        let i = choose|i: int| 0 <= i < o.len() && o[i] == k;
        assert(r[i] == cs[o[i]]);
    }
    assert forall|i: int| 0 <= i < r.len() implies names.contains((#[trigger] r[i]).name) && r[i].count == names.filter(
        |x: Seq<char>| x == r[i].name,
    ).len() by {
        assert(r[i] == cs[o[i]]);
    }
    assert forall|i: int, j: int| 0 <= i < j < r.len() implies (#[trigger] r[i]).name != (#[trigger] r[j]).name by {
        assert(r[i] == cs[o[i]] && r[j] == cs[o[j]]);
        assert(o[i] != o[j]);
        if o[i] < o[j] {
            assert(cs[o[i]].name != cs[o[j]].name);
        } else {
            assert(cs[o[j]].name != cs[o[i]].name);
        }
    }
    assert forall|i: int, j: int| 0 <= i < j < r.len() implies (#[trigger] r[i]).count > (#[trigger] r[j]).count || (
    r[i].count == r[j].count && less(text_key(r[i].name), text_key(r[j].name))) by {
        assert(r[i] == cs[o[i]] && r[j] == cs[o[j]]);
        assert(!less(keys[o[j]], keys[o[i]]));
        lemma_count_order(r[i], r[j]);
    }
}

proof fn lemma_count_order(a: CountV, b: CountV)
    requires
        a.name != b.name,
        !less(count_key(b), count_key(a)),
    ensures
        a.count > b.count || (a.count == b.count && less(text_key(a.name), text_key(b.name))),
{
    let x = count_key(a);
    let y = count_key(b);
    assert(x[0] == -a.count);
    assert(y[0] == -b.count);
    if a.count == b.count {
        lemma_less_behind(-a.count, text_key(b.name), text_key(a.name), 0);
        lemma_texts_compare(a.name, b.name);
    }
}

proof fn lemma_texts_compare(a: Seq<char>, b: Seq<char>)
    requires
        a != b,
        !less(text_key(b), text_key(a)),
    ensures
        less(text_key(a), text_key(b)),
{
    if !less(text_key(a), text_key(b)) {
        assert(text_key(a).take(0) =~= text_key(b).take(0));
        lemma_less_total(text_key(a), text_key(b), 0);
        lemma_text_key_injective(a, b);
    }
}

/// Each name that occurs is counted once.
proof fn lemma_counted(names: Seq<Seq<char>>)
    ensures
        forall|k: int|
            0 <= k < counted(names).len() ==> names.contains((#[trigger] counted(names)[k]).name) && counted(names)[k].count
                == names.filter(|x: Seq<char>| x == counted(names)[k].name).len(),
        forall|x: Seq<char>| #[trigger] names.contains(x) ==> exists|k: int|
            0 <= k < counted(names).len() && (#[trigger] counted(names)[k]).name == x,
        forall|k: int, l: int|
            0 <= k < l < counted(names).len() ==> (#[trigger] counted(names)[k]).name != (#[trigger] counted(names)[l]).name,
{
    let keys = name_keys(names);
    let gs = groups_of(keys);
    let cs = counted(names);
    assert forall|k: int| 0 <= k < cs.len() implies names.contains((#[trigger] cs[k]).name) && cs[k].count == names.filter(
        |x: Seq<char>| x == cs[k].name,
    ).len() by {
        law_group_members(keys, k);
        let g = gs[k];
        let name = cs[k].name;
        assert(name == names[g[0]]);
        assert forall|x: int| #[trigger] g.contains(x) <==> 0 <= x < names.len() && names[x] == name by {
            if 0 <= x < names.len() && keys[x] == keys[g[0]] {
                lemma_text_key_injective(names[x], name);
            }
        }
        let m = lemma_places_count(names, g, name, names.len() as int);
        assert(names.take(names.len() as int) =~= names);
        assert(m == g.len()) by {
            if m < g.len() {
                assert(g.contains(g[m]));
            }
        }
    }
    assert forall|x: Seq<char>| #[trigger] names.contains(x) implies exists|k: int| 0 <= k < cs.len() && (#[trigger] cs[k]).name == x by {
        let i = choose|i: int| 0 <= i < names.len() && names[i] == x;
        law_groups(keys, i, i);
        let k = choose|k: int| 0 <= k < gs.len() && (#[trigger] gs[k]).contains(i);
        law_group_members(keys, k);
        lemma_text_key_injective(names[gs[k][0]], x);
        assert(cs[k].name == x);
    }
    assert forall|k: int, l: int| 0 <= k < l < cs.len() implies (#[trigger] cs[k]).name != (#[trigger] cs[l]).name by {
        law_group_members(keys, k);
        law_group_members(keys, l);
        assert(less(keys[gs[k][0]], keys[gs[l][0]]));
        lemma_less_asymmetric(keys[gs[k][0]], keys[gs[l][0]], 0);
    }
}

/// As many places below `n` hold a name as it occurs there.
proof fn lemma_places_count(names: Seq<Seq<char>>, g: Seq<int>, name: Seq<char>, n: int) -> (m: int)
    requires
        0 <= n <= names.len(),
        forall|x: int| #[trigger] g.contains(x) <==> 0 <= x < names.len() && names[x] == name,
        forall|i: int, j: int| 0 <= i < j < g.len() ==> #[trigger] g[i] < #[trigger] g[j],
    ensures
        0 <= m <= g.len(),
        m == names.take(n).filter(|x: Seq<char>| x == name).len(),
        forall|i: int| 0 <= i < m ==> #[trigger] g[i] < n,
        forall|i: int| m <= i < g.len() ==> #[trigger] g[i] >= n,
    decreases n,
{
    reveal(Seq::filter);
    if n == 0 {
        assert forall|i: int| 0 <= i < g.len() implies #[trigger] g[i] >= 0 by {
            assert(g.contains(g[i]));
        }
        0
    } else {
        let m = lemma_places_count(names, g, name, n - 1);
        assert(names.take(n).drop_last() =~= names.take(n - 1));
        assert(names.take(n).last() == names[n - 1]);
        if names[n - 1] == name {
            assert(g.contains(n - 1));
            let i = choose|i: int| 0 <= i < g.len() && g[i] == n - 1;
            assert(i == m) by {
                if i > m {
                    assert(g[m] < g[i]);
                }
            }
            m + 1
        } else {
            if m < g.len() {
                assert(g.contains(g[m]));
                assert forall|i: int| m <= i < g.len() implies #[trigger] g[i] >= n by {
                    assert(g.contains(g[i]));
                }
            }
            m
        }
    }
}

/// The known bitrates are those of the records that have one, in their order.
pub proof fn law_bitrates(rs: Seq<RecordV>)
    ensures
        bitrates(rs, rs.len() as int) == rs.map_values(|x: RecordV| match x.bitrate {
            Some(v) => seq![v],
            None => seq![],
        }).flatten(),
{
    lemma_bitrates(rs, rs.len() as int);
    assert(rs.take(rs.len() as int) =~= rs);
}

proof fn lemma_bitrates(rs: Seq<RecordV>, n: int)
    requires
        0 <= n <= rs.len(),
    ensures
        bitrates(rs, n) == rs.take(n).map_values(|x: RecordV| match x.bitrate {
            Some(v) => seq![v],
            None => seq![],
        }).flatten(),
    decreases n,
{
    let all = rs.take(n).map_values(|x: RecordV| match x.bitrate {
            Some(v) => seq![v],
            None => seq![],
        });
    if n > 0 {
        lemma_bitrates(rs, n - 1);
        let before = rs.take(n - 1).map_values(|x: RecordV| match x.bitrate {
            Some(v) => seq![v],
            None => seq![],
        });
        assert(all =~= before.push(all[n - 1]));
        assert(rs.take(n)[n - 1] == rs[n - 1]);
        lemma_flatten_push(before, all[n - 1]);
        assert(bitrates(rs, n) =~= before.flatten() + all[n - 1]);
    } else {
        assert(all =~= seq![]);
        assert(all.flatten() =~= seq![]);
    }
}

/// The artists are those of the records that have one, in their order.
pub proof fn law_artists(rs: Seq<RecordV>)
    ensures
        artists_of(rs, rs.len() as int) == rs.map_values(|x: RecordV| match x.artist_key {
            Some(v) => seq![v],
            None => seq![],
        }).flatten(),
{
    lemma_artists(rs, rs.len() as int);
    assert(rs.take(rs.len() as int) =~= rs);
}

proof fn lemma_artists(rs: Seq<RecordV>, n: int)
    requires
        0 <= n <= rs.len(),
    ensures
        artists_of(rs, n) == rs.take(n).map_values(|x: RecordV| match x.artist_key {
            Some(v) => seq![v],
            None => seq![],
        }).flatten(),
    decreases n,
{
    let all = rs.take(n).map_values(|x: RecordV| match x.artist_key {
            Some(v) => seq![v],
            None => seq![],
        });
    if n > 0 {
        lemma_artists(rs, n - 1);
        let before = rs.take(n - 1).map_values(|x: RecordV| match x.artist_key {
            Some(v) => seq![v],
            None => seq![],
        });
        assert(all =~= before.push(all[n - 1]));
        assert(rs.take(n)[n - 1] == rs[n - 1]);
        lemma_flatten_push(before, all[n - 1]);
        assert(artists_of(rs, n) =~= before.flatten() + all[n - 1]);
    } else {
        assert(all =~= seq![]);
        assert(all.flatten() =~= seq![]);
    }
}

/// The albums are those of the records that have one, in their order.
pub proof fn law_albums(rs: Seq<RecordV>)
    ensures
        albums_of(rs, rs.len() as int) == rs.map_values(|x: RecordV| match x.album_key {
            Some(v) => seq![v],
            None => seq![],
        }).flatten(),
{
    lemma_albums(rs, rs.len() as int);
    assert(rs.take(rs.len() as int) =~= rs);
}

proof fn lemma_albums(rs: Seq<RecordV>, n: int)
    requires
        0 <= n <= rs.len(),
    ensures
        albums_of(rs, n) == rs.take(n).map_values(|x: RecordV| match x.album_key {
            Some(v) => seq![v],
            None => seq![],
        }).flatten(),
    decreases n,
{
    let all = rs.take(n).map_values(|x: RecordV| match x.album_key {
            Some(v) => seq![v],
            None => seq![],
        });
    if n > 0 {
        lemma_albums(rs, n - 1);
        let before = rs.take(n - 1).map_values(|x: RecordV| match x.album_key {
            Some(v) => seq![v],
            None => seq![],
        });
        assert(all =~= before.push(all[n - 1]));
        assert(rs.take(n)[n - 1] == rs[n - 1]);
        lemma_flatten_push(before, all[n - 1]);
        assert(albums_of(rs, n) =~= before.flatten() + all[n - 1]);
    } else {
        assert(all =~= seq![]);
        assert(all.flatten() =~= seq![]);
    }
}

/// A nominal bitrate is counted as often as a bitrate is nearest to it.
pub proof fn law_bucket_count(b: Seq<u32>, k: int)
    ensures
        bucket_count(b, k, b.len() as int) == b.filter(|x: u32| bucket_of(x) == k).len(),
{
    lemma_bucket_count(b, k, b.len() as int);
    assert(b.take(b.len() as int) =~= b);
}

proof fn lemma_bucket_count(b: Seq<u32>, k: int, n: int)
    requires
        0 <= n <= b.len(),
    ensures
        bucket_count(b, k, n) == b.take(n).filter(|x: u32| bucket_of(x) == k).len(),
    decreases n,
{
    reveal(Seq::filter);
    if n > 0 {
        lemma_bucket_count(b, k, n - 1);
        assert(b.take(n).drop_last() =~= b.take(n - 1));
        assert(b.take(n).last() == b[n - 1]);
    }
}

/// A bitrate between the lowest and the highest nominal one is counted under one that no other is
/// nearer to; up to sixteen below the lowest or above the highest it is counted under that, and
/// further away under the open end.
pub proof fn law_bucket(kbps: u32, j: int)
    requires
        1 <= j <= 5,
    ensures
        ({
            let n = |k: int| seq![112int, 128, 160, 192, 256, 320][k];
            let k = bucket_of(kbps);
            &&& 0 <= k <= 6
            &&& k == 0 <==> kbps <= 112
            &&& k == 6 <==> kbps > 352
            &&& 112 < kbps <= 320 ==> 1 <= k <= 5 && (kbps - n(k)) * (kbps - n(k)) <= (kbps - n(j)) * (kbps - n(j))
            &&& 320 < kbps <= 352 ==> k == 5
        }),
{
    let n = |k: int| seq![112int, 128, 160, 192, 256, 320][k];
    let k = bucket_of(kbps);
    let x = kbps - n(k);
    let y = kbps - n(j);
    if 112 < kbps <= 320 {
        assert(x * x <= y * y) by (nonlinear_arith)
            requires
                -y <= x <= y || y <= x <= -y,
        ;
    }
}

/// The nominal bitrates that are listed are those that occur, in their order, with how often they
/// do.
pub proof fn law_bucket_counts(b: Seq<u32>)
    ensures
        bucket_counts(b, 7) == Seq::new(7, |k: int| k).filter(
            |k: int| exists|i: int| 0 <= i < b.len() && bucket_of(#[trigger] b[i]) == k,
        ).map_values(
            |k: int| CountV { name: bucket_names()[k], count: b.filter(|x: u32| bucket_of(x) == k).len() as int },
        ),
{
    lemma_bucket_counts(b, 7);
    assert(Seq::new(7, |k: int| k).take(7) =~= Seq::new(7, |k: int| k));
}

proof fn lemma_bucket_counts(b: Seq<u32>, n: int)
    requires
        0 <= n <= 7,
    ensures
        bucket_counts(b, n) == Seq::new(7, |k: int| k).take(n).filter(
            |k: int| exists|i: int| 0 <= i < b.len() && bucket_of(#[trigger] b[i]) == k,
        ).map_values(
            |k: int| CountV { name: bucket_names()[k], count: b.filter(|x: u32| bucket_of(x) == k).len() as int },
        ),
    decreases n,
{
    reveal(Seq::filter);
    let all = Seq::new(7, |k: int| k);
    let p = |k: int| exists|i: int| 0 <= i < b.len() && bucket_of(#[trigger] b[i]) == k;
    let f = |k: int| CountV { name: bucket_names()[k], count: b.filter(|x: u32| bucket_of(x) == k).len() as int };
    if n > 0 {
        lemma_bucket_counts(b, n - 1);
        assert(all.take(n).drop_last() =~= all.take(n - 1));
        assert(all.take(n).last() == n - 1);
        law_bucket_count(b, n - 1);
        lemma_bucket_some(b, n - 1, b.len() as int);
        let before = all.take(n - 1).filter(p);
        if p(n - 1) {
            assert(all.take(n).filter(p) =~= before.push(n - 1));
            assert(before.push(n - 1).map_values(f) =~= before.map_values(f).push(f(n - 1)));
        } else {
            assert(all.take(n).filter(p) =~= before);
        }
    } else {
        assert(all.take(0).filter(p).map_values(f) =~= seq![]);
    }
}

proof fn lemma_bucket_some(b: Seq<u32>, k: int, n: int)
    requires
        0 <= n <= b.len(),
    ensures
        bucket_count(b, k, n) > 0 <==> exists|i: int| 0 <= i < n && bucket_of(#[trigger] b[i]) == k,
    decreases n,
{
    if n > 0 {
        lemma_bucket_some(b, k, n - 1);
        if exists|i: int| 0 <= i < n && bucket_of(#[trigger] b[i]) == k {
            let i = choose|i: int| 0 <= i < n && bucket_of(#[trigger] b[i]) == k;
            if bucket_of(b[n - 1]) != k {
                assert(i < n - 1);
            }
        }
    }
}

/// A sum starts at nought, and a record that comes to the others adds what it has to it.
pub proof fn law_sum(rs: Seq<RecordV>, r: RecordV, f: spec_fn(RecordV) -> nat)
    ensures
        sum_of(seq![], f, 0) == 0,
        sum_of(rs.push(r), f, rs.len() as int + 1) == sum_of(rs, f, rs.len() as int) + f(r),
{
    lemma_sum_same(rs, r, f, rs.len() as int);
}

proof fn lemma_sum_same(rs: Seq<RecordV>, r: RecordV, f: spec_fn(RecordV) -> nat, n: int)
    requires
        0 <= n <= rs.len(),
    ensures
        sum_of(rs.push(r), f, n) == sum_of(rs, f, n),
    decreases n,
{
    if n > 0 {
        lemma_sum_same(rs, r, f, n - 1);
    }
}

/// The sum of the bitrates lies between so many times the lowest and so many times the highest,
/// and grows by what comes to them.
pub proof fn law_bitrate_sum(b: Seq<u32>, lo: int, hi: int, n: int)
    requires
        0 <= n <= b.len(),
        forall|i: int| 0 <= i < b.len() ==> lo <= #[trigger] b[i] <= hi,
    ensures
        lo * n <= bitrate_sum(b, n) <= hi * n,
        n > 0 ==> bitrate_sum(b, n) - bitrate_sum(b, n - 1) == b[n - 1],
    decreases n,
{
    if n > 0 {
        law_bitrate_sum(b, lo, hi, n - 1);
        assert(lo * n == lo * (n - 1) + lo) by (nonlinear_arith);
        assert(hi * n == hi * (n - 1) + hi) by (nonlinear_arith);
    } else {
        assert(lo * 0 == 0 && hi * 0 == 0);
    }
}

/// An album goes by its owner and its title, in small letters and without the white space round
/// them. The owner is its album artist, and its artist only where it has none; a title that is
/// blank is none.
pub proof fn law_album_owner(m: MetaV, n: MetaV, a: Seq<char>, t: Seq<char>)
    requires
        m.album == Some(t),
        m.album_artist == Some(a),
        n.album == Some(t),
        n.album_artist is None,
        n.artist == Some(a),
    ensures
        is_blank(t) ==> album_key_of(m) is None,
        !is_blank(t) ==> album_key_of(m) == Some((lower_text(trimmed(a)), lower_text(trimmed(t)))),
        album_key_of(n) == album_key_of(m),
        artist_key_of(n.artist) is Some ==> artist_key_of(n.artist) == Some(lower_text(trimmed(a))),
        artist_key_of(None) is None,
{
}

/// What a record says of a file that can be read is what its tags and properties say; lyrics are
/// judged beside it and inside it apart from each other. Of one that cannot be read only its name,
/// its size and what lies beside it are known.
pub proof fn law_record(path: Seq<char>, bytes: u64, sidecar: Option<Seq<u8>>, m: MetaV)
    ensures
        ({
            let r = record_of(path, bytes, sidecar, Some(m));
            let u = record_of(path, bytes, sidecar, None);
            &&& r.readable && !u.readable
            &&& r.bytes == bytes && u.bytes == bytes
            &&& r.ext == u.ext
            &&& r.sidecar == u.sidecar && (sidecar is None ==> r.sidecar is Nothing)
            &&& sidecar is Some && !valid_utf8(sidecar->0) ==> r.sidecar is Plain
            &&& r.duration == m.duration_secs && r.bitrate == m.bitrate_kbps
            &&& r.sample_rate == m.sample_rate && r.channels == m.channels
            &&& r.has_cover == m.has_cover && !u.has_cover
            &&& r.missing_title <==> m.title is None || is_blank(m.title->0)
            &&& r.missing_artist <==> m.artist is None || is_blank(m.artist->0)
            &&& r.missing_album <==> m.album is None || is_blank(m.album->0)
            &&& u.missing_title && u.missing_artist && u.missing_album
            &&& m.lyrics is None ==> r.embedded is Nothing
            &&& m.lyrics is Some ==> (r.embedded is Nothing <==> is_blank(m.lyrics->0))
            &&& r.embedded is Generated ==> generated_text(m.lyrics->0)
            &&& r.embedded is Synced ==> synced_text(m.lyrics->0) && !generated_text(m.lyrics->0)
            &&& r.embedded is Plain ==> !synced_text(m.lyrics->0) && !generated_text(m.lyrics->0)
            &&& u.embedded is Nothing && u.bitrate is None && u.artist_key is None && u.album_key is None && u.duration == 0
        }),
{
}

/// The average bitrate is the sum shared out, cut to a whole number; it lies between the lowest and
/// the highest.
pub proof fn law_bitrate_summary(s: BitrateStats, b: Seq<u32>, n: int)
    requires
        bitrate_summary(s, b, n),
    ensures
        b.len() > 0 ==> s.min <= s.avg <= s.max,
        b.len() > 0 ==> s.avg * b.len() <= bitrate_sum(b, b.len() as int) < (s.avg + 1) * b.len(),
        s.unknown + b.len() == n,
{
    if b.len() > 0 {
        let k = b.len() as int;
        let t = bitrate_sum(b, k);
        law_bitrate_sum(b, s.min as int, s.max as int, k);
        let a = t / k;
        lemma_fundamental_div_mod(t, k);
        assert(a * k <= t && t < (a + 1) * k) by (nonlinear_arith)
            requires
                k > 0,
                t == k * a + t % k,
                0 <= t % k < k,
        ;
        let (lo, hi): (int, int) = (s.min as int, s.max as int);
        assert(lo <= a) by (nonlinear_arith)
            requires
                k > 0,
                lo * k <= t,
                t < (a + 1) * k,
        ;
        assert(a <= hi) by (nonlinear_arith)
            requires
                k > 0,
                t <= hi * k,
                a * k <= t,
        ;
    }
}

/// Formats that differ in case alone are one.
pub proof fn law_ext(p: Seq<char>, q: Seq<char>)
    requires
        extension_of(p) is Some,
        extension_of(q) is Some,
        ascii_lowered(extension_of(p)->0) == ascii_lowered(extension_of(q)->0),
    ensures
        ext_of(p) == ext_of(q),
        ext_of(p) == ascii_lowered(ext_of(p)),
{
    let e = extension_of(p)->0;
    assert(ascii_lowered(ascii_lowered(e)) =~= ascii_lowered(e));
}

/// One channel is mono, two are stereo, and others go by their number; a sample rate goes by its
/// number, so that two different ones have different names. What is not known is said to be.
pub proof fn law_labels(a: u8, r: u32, t: u32)
    ensures
        channel_name(Some(1)) == "mono"@,
        channel_name(Some(2)) == "stereo"@,
        a == 0 || a > 2 ==> channel_name(Some(a)) == decimal(a as nat) + " ch"@,
        channel_name(None) == "unknown"@,
        r > 0 ==> rate_name(Some(r)) == decimal(r as nat),
        rate_name(Some(0)) == "unknown"@,
        rate_name(None) == "unknown"@,
        r > 0 && t > 0 && r != t ==> rate_name(Some(r)) != rate_name(Some(t)),
{
    crate::text::law_decimal(r as nat);
    crate::text::law_decimal(t as nat);
}

} // verus!
