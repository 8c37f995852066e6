//! What the command line comes to: which settings a command runs with, what answers and
//! pasted lines mean, and how sizes, times and paths are written.
use vstd::arithmetic::div_mod::lemma_fundamental_div_mod_converse;
use vstd::prelude::*;
use crate::lyrics::Options;
use crate::text::{
    all_digits, ascii_digit, ascii_lowered, begins, cat, cat3, cat5, chars_of, decimal, decimal_text, is_blank,
    is_space, join, joined, law_decimal, law_nearest, law_trimmed, law_trimmed_only, lemma_flatten_push,
    lemma_replaced_add, lemma_replaced_one, lemma_skip, nearest, parse_unsigned, replace, replaced,
    same_ignoring_ascii_case, skip_space, skip_word, skip_word_chars, split, split_on, starts_with, text_of, trim,
    trimmed, unsigned, words_of,
};

verus! {

// ---- settings --------------------------------------------------------------------------------

/// Shown below the help of `configure`: the settings that there are.
pub const CONFIGURE_HELP: &'static str = "Settable keys (run `amdl configure keys` for a description of each):\n  paths.source          paths.output          convert.bitrate\n  keys.acoustid         keys.discogs\n  lyrics.lrcapi_url     lyrics.lrcapi_key     lyrics.lrcapi_first\n  lyrics.aligner_url    lyrics.hints\n\nKeys can be written as words or dotted, and booleans take on/off:\n  amdl configure set lyrics hints off\n  amdl configure set lyrics.hints off\n  amdl configure set paths output /music/lib\n  amdl configure get lyrics aligner_url";

/// The bitrate where none is set.
pub const DEFAULT_BITRATE: &'static str = "192k";

/// A setting's key, given as words or as one dotted word.
pub fn join_key(parts: &[String]) -> (r: String)
    ensures
        r@ == joined(parts.deep_view(), "."@),
{
    join(parts, ".")
}

/// The key and the value of `configure set`: the last word is the value, and all before
/// it are the key.
pub fn split_setting(args: &[String]) -> (r: Option<(String, String)>)
    ensures
        match r {
            Some((k, v)) => args@.len() > 0 && k@ == joined(args.deep_view().drop_last(), "."@) && v@ == args.deep_view().last(),
            None => args@.len() == 0,
        },
{
    let ghost av = args.deep_view();
    let n: usize = args.len();
    if n == 0 {
        return None;
    }
    let mut key: Vec<String> = Vec::new();
    let mut i: usize = 0;
    assert(key.deep_view() =~= av.take(0));
    while i + 1 < n
        invariant
            i < n,
            n == args@.len(),
            av == args.deep_view(),
            key.deep_view() == av.take(i as int),
        decreases n - i,
    {
        let ghost before = key.deep_view();
        assert(av[i as int] == args@[i as int]@);
        key.push(args[i].clone());
        assert(key.deep_view() =~= before.push(av[i as int]));
        assert(av.take(i + 1) =~= av.take(i as int).push(av[i as int]));
        i += 1;
    }
    assert(av.take(i as int) =~= av.drop_last());
    assert(av.last() == args@[n - 1]@);
    Some((join_key(&key), args[n - 1].clone()))
}

/// A setting: what was given on the command line, else what is configured.
pub fn given_or(given: Option<String>, configured: Option<String>) -> (r: Option<String>)
    ensures
        r == (if given is Some {
            given
        } else {
            configured
        }),
{
    match given {
        Some(g) => Some(g),
        None => configured,
    }
}

/// The bitrate: what was given, else what is configured, else the usual one.
pub fn bitrate(given: Option<String>, configured: Option<String>) -> (r: String)
    ensures
        r@ == (match given {
            Some(g) => g@,
            None => match configured {
                Some(c) => c@,
                None => DEFAULT_BITRATE@,
            },
        }),
{
    match given_or(given, configured) {
        Some(b) => b,
        None => DEFAULT_BITRATE.to_string(),
    }
}

/// The stores in the first `n` pieces: those that are not blank.
pub open spec fn stores_upto(pieces: Seq<Seq<char>>, n: int) -> Seq<Seq<char>>
    decreases n,
{
    if n <= 0 {
        seq![]
    } else if trimmed(pieces[n - 1]).len() > 0 {
        stores_upto(pieces, n - 1).push(trimmed(pieces[n - 1]))
    } else {
        stores_upto(pieces, n - 1)
    }
}

/// The stores to try: the first one, then those in the list that follows.
pub fn storefronts(primary: &str, fallback: &str) -> (r: Vec<String>)
    ensures
        r.deep_view() == seq![primary@] + stores_upto(
            split_on(fallback@, seq![',']),
            split_on(fallback@, seq![',']).len() as int,
        ),
{
    let comma: [char; 1] = [','];
    assert(comma@ =~= seq![',']);
    let pieces = split(fallback, &comma);
    let ghost pv = pieces.deep_view();
    let mut out: Vec<String> = Vec::new();
    out.push(primary.to_string());
    let mut i: usize = 0;
    assert(out.deep_view() =~= seq![primary@] + stores_upto(pv, 0));
    while i < pieces.len()
        invariant
            i <= pieces@.len(),
            pv == pieces.deep_view(),
            out.deep_view() == seq![primary@] + stores_upto(pv, i as int),
        decreases pieces@.len() - i,
    {
        let ghost before = out.deep_view();
        assert(pv[i as int] == pieces@[i as int]@);
        let s = trim(pieces[i].as_str());
        if !s.as_str().is_empty() {
            let ghost sv = s@;
            out.push(s);
            assert(out.deep_view() =~= before.push(sv));
            assert(before.push(sv) =~= seq![primary@] + stores_upto(pv, i + 1));
        }
        i += 1;
    }
    out
}

/// How much is printed.
pub fn verbosity(quiet: bool, verbose: bool) -> (r: u8)
    ensures
        r == (if quiet {
            0u8
        } else if verbose {
            2u8
        } else {
            1u8
        }),
{
    if quiet {
        0
    } else if verbose {
        2
    } else {
        1
    }
}

/// The commands.
#[derive(Clone, Copy, PartialEq, Eq, Structural, Debug)]
pub enum Command {
    Download,
    Convert,
    Doctor,
    Stats,
    Covers,
    Lyrics,
    Identify,
    Tag,
    Config,
    Configure,
    Recover,
    Dedup,
    Undo,
    Cookies,
    Completions,
    Man,
}

/// A command that writes to the library, so that its runs can be undone.
pub open spec fn mutates(c: Command) -> bool {
    match c {
        Command::Download | Command::Convert | Command::Covers | Command::Lyrics | Command::Tag | Command::Identify
        | Command::Recover => true,
        _ => false,
    }
}

/// Whether a command writes to the library.
pub fn is_mutating(c: Command) -> (r: bool)
    ensures
        r == mutates(c),
{
    match c {
        Command::Download | Command::Convert | Command::Covers | Command::Lyrics | Command::Tag | Command::Identify
        | Command::Recover => true,
        _ => false,
    }
}

/// Whether a run is journaled.
pub fn journals(c: Command, no_undo: bool) -> (r: bool)
    ensures
        r == (mutates(c) && !no_undo),
{
    is_mutating(c) && !no_undo
}

/// What `lyrics` does, from its flags: upgrading is the default, forcing an embed embeds,
/// and alignment runs where a server is configured, unless it is switched off.
pub fn lyrics_options(no_upgrade: bool, embed: bool, force_embed: bool, no_align: bool, has_aligner: bool) -> (r: Options)
    ensures
        r.upgrade_synced == !no_upgrade,
        r.embed == (embed || force_embed),
        r.force_embed == force_embed,
        r.align == (!no_align && has_aligner),
{
    Options {
        upgrade_synced: !no_upgrade,
        embed: embed || force_embed,
        force_embed,
        align: !no_align && has_aligner,
    }
}

/// Whether it is said how alignment is set up: where it is not, and hints are wanted or
/// alignment was asked for.
pub fn shows_tip(has_aligner: bool, hints: bool, asked: bool, json: bool) -> (r: bool)
    ensures
        r == (!has_aligner && (hints || asked) && !json),
{
    !has_aligner && (hints || asked) && !json
}

/// Whether a second lyrics server is used.
#[derive(Clone, Copy, PartialEq, Eq, Structural, Debug)]
pub enum SecondServer {
    Used,
    /// Its address is set, but its key is not.
    NoKey,
    Unset,
}

/// Whether a second lyrics server is used: both its address and its key must be set.
pub fn second_server(has_url: bool, has_key: bool) -> (r: SecondServer)
    ensures
        r == (if has_url && has_key {
            SecondServer::Used
        } else if has_url {
            SecondServer::NoKey
        } else {
            SecondServer::Unset
        }),
{
    if has_url && has_key {
        SecondServer::Used
    } else if has_url {
        SecondServer::NoKey
    } else {
        SecondServer::Unset
    }
}

/// How covers are pasted after the passes that need nobody.
#[derive(Clone, Copy, PartialEq, Eq, Structural, Debug)]
pub enum Paste {
    No,
    FromFile,
    Interactive,
}

/// How covers are pasted: never in a dry run, and from a file where one is given.
pub fn paste_mode(dry_run: bool, from_file: bool, paste: bool) -> (r: Paste)
    ensures
        r == (if dry_run {
            Paste::No
        } else if from_file {
            Paste::FromFile
        } else if paste {
            Paste::Interactive
        } else {
            Paste::No
        }),
{
    if dry_run {
        Paste::No
    } else if from_file {
        Paste::FromFile
    } else if paste {
        Paste::Interactive
    } else {
        Paste::No
    }
}

/// Whether `undo` asks which run: only a bare one on a terminal does.
pub fn undo_asks(named: bool, dry_run: bool, json: bool, terminal: bool) -> (r: bool)
    ensures
        r == (!named && !dry_run && !json && terminal),
{
    !named && !dry_run && !json && terminal
}

/// Whether an address is that of an artist, all of whose albums are fetched.
pub fn is_artist_url(url: &str) -> (r: bool)
    ensures
        r == crate::text::contains_text(url@, "/artist/"@),
{
    crate::text::contains(url, "/artist/")
}

// ---- answers and pasted lines ----------------------------------------------------------------

/// What a pasted line means.
#[derive(Debug)]
pub enum Pasted {
    /// Nothing: it is blank or, in a file, a comment.
    Skip,
    /// It does not start with a number.
    NoNumber,
    /// No album has this number.
    OutOfRange(u64),
    /// No address follows the number.
    NoUrl,
    /// Embed what is at the address into the album at this place.
    Embed(usize, String),
}

#[verifier::ext_equal]
pub enum PastedV {
    Skip,
    NoNumber,
    OutOfRange(nat),
    NoUrl,
    Embed(int, Seq<char>),
}

impl DeepView for Pasted {
    type V = PastedV;

    open spec fn deep_view(&self) -> PastedV {
        match self {
            Pasted::Skip => PastedV::Skip,
            Pasted::NoNumber => PastedV::NoNumber,
            Pasted::OutOfRange(n) => PastedV::OutOfRange(*n as nat),
            Pasted::NoUrl => PastedV::NoUrl,
            Pasted::Embed(i, u) => PastedV::Embed(*i as int, u@),
        }
    }
}

/// What a line means among so many albums: a number from one on, white space and an
/// address. A line that starts with `#` is a comment where `comments` are taken.
pub open spec fn pasted(line: Seq<char>, albums: nat, comments: bool) -> PastedV {
    let l = trimmed(line);
    let i = skip_word(l, 0);
    let url = if i < l.len() {
        trimmed(l.skip(i + 1))
    } else {
        seq![]
    };
    if l.len() == 0 || (comments && starts_with(l, "#"@)) {
        PastedV::Skip
    } else {
        match unsigned(l.take(i)) {
            None => PastedV::NoNumber,
            Some(n) => if n == 0 || n > albums {
                PastedV::OutOfRange(n)
            } else if url.len() == 0 {
                PastedV::NoUrl
            } else {
                PastedV::Embed(n - 1, url)
            },
        }
    }
}

/// What a pasted line means among so many albums.
pub fn read_pasted(line: &str, albums: usize, comments: bool) -> (r: Pasted)
    ensures
        r.deep_view() == pasted(line@, albums as nat, comments),
{
    let l = trim(line);
    if l.as_str().is_empty() || (comments && begins(l.as_str(), "#")) {
        return Pasted::Skip;
    }
    let c = chars_of(l.as_str());
    let n: usize = c.len();
    let i = skip_word_chars(&c, 0);
    assert(c@.subrange(0, i as int) =~= l@.take(i as int));
    let num = text_of(&c, 0, i);
    let url = if i < n {
        assert(c@.subrange(i + 1, n as int) =~= l@.skip(i + 1));
        trim(text_of(&c, i + 1, n).as_str())
    } else {
        let e = String::new();
        assert(e@ =~= seq![]);
        e
    };
    match parse_unsigned(num.as_str()) {
        None => Pasted::NoNumber,
        Some(k) => {
            if k == 0 || k > albums as u64 {
                Pasted::OutOfRange(k)
            } else if url.as_str().is_empty() {
                Pasted::NoUrl
            } else {
                Pasted::Embed((k - 1) as usize, url)
            }
        },
    }
}

/// What an answer to the question which run to undo means.
#[derive(Clone, Copy, PartialEq, Eq, Structural, Debug)]
pub enum Pick {
    Cancel,
    /// Undo the run at this place.
    Undo(usize),
    /// Only show what undoing it would do.
    Preview(usize),
    /// It means nothing: ask again.
    Again,
}

/// The run that a number from one on stands for; nothing stands for the first.
pub open spec fn place_of(num: Seq<char>, runs: nat) -> Option<int> {
    if num.len() == 0 {
        Some(0)
    } else {
        match unsigned(num) {
            Some(n) if 1 <= n <= runs => Some(n - 1),
            _ => None,
        }
    }
}

pub open spec fn picked(answer: Seq<char>, runs: nat) -> Pick {
    let a = trimmed(answer);
    let preview = a.len() > 0 && (a[0] == 'd' || a[0] == 'D');
    let num = if preview {
        trimmed(a.skip(1))
    } else {
        a
    };
    if ascii_lowered(a) == ascii_lowered("q"@) {
        Pick::Cancel
    } else {
        match place_of(num, runs) {
            None => Pick::Again,
            Some(i) => if preview {
                Pick::Preview(i as usize)
            } else {
                Pick::Undo(i as usize)
            },
        }
    }
}

/// What an answer means among so many runs.
pub fn pick(answer: &str, runs: usize) -> (r: Pick)
    ensures
        r == picked(answer@, runs as nat),
{
    let a = trim(answer);
    if same_ignoring_ascii_case(a.as_str(), "q") {
        return Pick::Cancel;
    }
    let c = chars_of(a.as_str());
    let n: usize = c.len();
    let preview = n > 0 && (c[0] == 'd' || c[0] == 'D');
    let num = if preview {
        assert(c@.subrange(1, n as int) =~= a@.skip(1));
        trim(text_of(&c, 1, n).as_str())
    } else {
        a
    };
    let place: usize = if num.as_str().is_empty() {
        0
    } else {
        match parse_unsigned(num.as_str()) {
            Some(k) => if 1 <= k && k <= runs as u64 {
                (k - 1) as usize
            } else {
                return Pick::Again;
            },
            None => {
                return Pick::Again;
            },
        }
    };
    if preview {
        Pick::Preview(place)
    } else {
        Pick::Undo(place)
    }
}

// ---- sizes, times and paths ------------------------------------------------------------------

/// The largest unit that a size is written in: how often it can be divided by 1024, at
/// most four times.
pub open spec fn unit_of(n: nat) -> nat {
    if n < 0x400 {
        0
    } else if n < 0x10_0000 {
        1
    } else if n < 0x4000_0000 {
        2
    } else if n < 0x100_0000_0000 {
        3
    } else {
        4
    }
}

pub open spec fn unit_size(u: nat) -> nat {
    if u == 0 {
        1
    } else if u == 1 {
        0x400
    } else if u == 2 {
        0x10_0000
    } else if u == 3 {
        0x4000_0000
    } else {
        0x100_0000_0000
    }
}

pub open spec fn unit_name(u: nat) -> Seq<char> {
    if u == 0 {
        " B"@
    } else if u == 1 {
        " KiB"@
    } else if u == 2 {
        " MiB"@
    } else if u == 3 {
        " GiB"@
    } else {
        " TiB"@
    }
}

/// A size in bytes: whole bytes, else a larger unit with one decimal.
pub open spec fn size_text(n: nat) -> Seq<char> {
    if unit_of(n) == 0 {
        decimal(n) + " B"@
    } else {
        let tenths = nearest(n * 10, unit_size(unit_of(n)));
        decimal(tenths / 10) + "."@ + decimal(tenths % 10) + unit_name(unit_of(n))
    }
}

/// A size in bytes.
pub fn human_bytes(n: u64) -> (r: String)
    ensures
        r@ == size_text(n as nat),
{
    if n < 0x400 {
        return cat(decimal_text(n).as_str(), " B");
    }
    let (size, name): (u64, &str) = if n < 0x10_0000 {
        (0x400, " KiB")
    } else if n < 0x4000_0000 {
        (0x10_0000, " MiB")
    } else if n < 0x100_0000_0000 {
        (0x4000_0000, " GiB")
    } else {
        (0x100_0000_0000, " TiB")
    };
    let ten: u128 = n as u128 * 10;
    let q: u128 = ten / size as u128;
    let rest: u128 = ten % size as u128;
    assert(q * 0x400 <= ten) by (nonlinear_arith)
        requires
            q == ten / (size as u128),
            size >= 0x400,
    ;
    let up = 2 * rest > size as u128 || (2 * rest == size as u128 && q % 2 == 1);
    let tenths: u64 = if up {
        q as u64 + 1
    } else {
        q as u64
    };
    assert(tenths == nearest(n as nat * 10, size as nat));
    let mut o = cat3(decimal_text(tenths / 10).as_str(), ".", decimal_text(tenths % 10).as_str());
    o.append(name);
    o
}

/// A length of time: days, hours and minutes, from the largest that there is.
pub open spec fn span_text(secs: nat) -> Seq<char> {
    let d = secs / 86_400;
    let h = (secs % 86_400) / 3600;
    let m = (secs % 3600) / 60;
    if d > 0 {
        decimal(d) + "d "@ + decimal(h) + "h "@ + decimal(m) + "m"@
    } else if h > 0 {
        decimal(h) + "h "@ + decimal(m) + "m"@
    } else {
        decimal(m) + "m"@
    }
}

/// A length of time.
pub fn human_duration(secs: u64) -> (r: String)
    ensures
        r@ == span_text(secs as nat),
{
    let d: u64 = secs / 86_400;
    let h: u64 = (secs % 86_400) / 3600;
    let m: u64 = (secs % 3600) / 60;
    if d > 0 {
        let mut o = cat5(decimal_text(d).as_str(), "d ", decimal_text(h).as_str(), "h ", decimal_text(m).as_str());
        o.append("m");
        o
    } else if h > 0 {
        let mut o = cat3(decimal_text(h).as_str(), "h ", decimal_text(m).as_str());
        o.append("m");
        o
    } else {
        cat(decimal_text(m).as_str(), "m")
    }
}

/// How long ago something was.
pub open spec fn ago_text(secs: nat) -> Seq<char> {
    if secs < 45 {
        "just now"@
    } else if secs < 90 {
        "a min ago"@
    } else if secs < 3600 {
        decimal((secs + 30) / 60) + " min ago"@
    } else if secs < 7200 {
        "an hour ago"@
    } else if secs < 86_400 {
        decimal((secs + 1800) / 3600) + " h ago"@
    } else if secs < 172_800 {
        "yesterday"@
    } else {
        decimal(secs / 86_400) + " days ago"@
    }
}

/// How long before `now` something was. What lies ahead was just now.
pub fn rel_time(then: u64, now: u64) -> (r: String)
    ensures
        r@ == ago_text(
            if now > then {
                (now - then) as nat
            } else {
                0
            },
        ),
{
    let secs: u64 = if now > then {
        now - then
    } else {
        0
    };
    if secs < 45 {
        "just now".to_string()
    } else if secs < 90 {
        "a min ago".to_string()
    } else if secs < 3600 {
        cat(decimal_text((secs + 30) / 60).as_str(), " min ago")
    } else if secs < 7200 {
        "an hour ago".to_string()
    } else if secs < 86_400 {
        cat(decimal_text((secs + 1800) / 3600).as_str(), " h ago")
    } else if secs < 172_800 {
        "yesterday".to_string()
    } else {
        cat(decimal_text(secs / 86_400).as_str(), " days ago")
    }
}

/// A path in quotes for a shell: in single quotes, with each quote in it written as a
/// quoted one between two quoted parts.
pub open spec fn quoted(s: Seq<char>) -> Seq<char> {
    "'"@ + replaced(s, '\'', "'\\''"@) + "'"@
}

/// A path in quotes for a shell.
pub fn shell_quote(s: &str) -> (r: String)
    ensures
        r@ == quoted(s@),
{
    cat3("'", replace(s, '\'', "'\\''").as_str(), "'")
}

/// What a shell takes a word for, from `i` on: between single quotes every character
/// stands for itself, and outside of them one behind a backslash does.
pub open spec fn shell_word(s: Seq<char>, i: int, inside: bool) -> Seq<char>
    decreases s.len() - i,
{
    if i < 0 || i >= s.len() {
        seq![]
    } else if s[i] == '\'' {
        shell_word(s, i + 1, !inside)
    } else if !inside && s[i] == '\\' && i + 1 < s.len() {
        seq![s[i + 1]] + shell_word(s, i + 2, false)
    } else {
        seq![s[i]] + shell_word(s, i + 1, inside)
    }
}

/// A shell reads a quoted path back as it is, whatever it holds.
pub proof fn law_shell_reads_back(s: Seq<char>)
    ensures
        shell_word(quoted(s), 0, false) == s,
{
    reveal_strlit("'");
    let q = quoted(s);
    assert(q[0] == '\'');
    assert(s.skip(0) =~= s);
    assert(q.skip(1) =~= replaced(s, '\'', "'\\''"@) + "'"@);
    lemma_shell_inside(q, s, 0, 1);
}

proof fn lemma_shell_inside(q: Seq<char>, s: Seq<char>, k: int, i: int)
    requires
        0 <= k <= s.len(),
        1 <= i <= q.len(),
        q.skip(i) == replaced(s.skip(k), '\'', "'\\''"@) + "'"@,
    ensures
        shell_word(q, i, true) == s.skip(k),
    decreases s.len() - k,
{
    reveal_strlit("'");
    reveal_strlit("'\\''");
    let t = s.skip(k);
    let tail = q.skip(i);
    if k == s.len() {
        assert(t.len() == 0);
        assert(tail =~= "'"@);
        assert(q[i] == tail[0]);
        assert(q.len() == i + 1);
        assert(shell_word(q, i + 1, false) =~= seq![]);
        assert(shell_word(q, i, true) =~= t);
    } else {
        let rest = s.skip(k + 1);
        assert(t.skip(1) =~= rest);
        assert(t[0] == s[k]);
        let r = replaced(rest, '\'', "'\\''"@);
        assert(t =~= seq![t[0]] + rest);
        lemma_replaced_add(seq![t[0]], rest, '\'', "'\\''"@);
        lemma_replaced_one(t[0], '\'', "'\\''"@);
        if t[0] == '\'' {
            let w = "'\\''"@;
            assert(tail =~= w + r + "'"@);
            assert(q[i] == tail[0] && q[i + 1] == tail[1] && q[i + 2] == tail[2] && q[i + 3] == tail[3]);
            assert(q.skip(i + 4) =~= tail.skip(4));
            assert(tail.skip(4) =~= r + "'"@);
            lemma_shell_inside(q, s, k + 1, i + 4);
            reveal_with_fuel(shell_word, 4);
            assert(shell_word(q, i, true) =~= seq!['\''] + rest);
            assert(seq!['\''] + rest =~= t);
        } else {
            assert(tail =~= seq![t[0]] + r + "'"@);
            assert(q[i] == tail[0]);
            assert(q.skip(i + 1) =~= tail.skip(1));
            assert(tail.skip(1) =~= r + "'"@);
            lemma_shell_inside(q, s, k + 1, i + 1);
            assert(shell_word(q, i, true) =~= seq![t[0]] + rest);
            assert(seq![t[0]] + rest =~= t);
        }
    }
}

// ---- the guide -------------------------------------------------------------------------------

/// A command of the guide.
#[derive(Debug)]
pub struct Topic {
    pub name: String,
    pub hidden: bool,
    pub help: String,
}

/// The parts of the guide that the first `n` commands have.
pub open spec fn topics_text(ts: Seq<Topic>, n: int) -> Seq<char>
    decreases n,
{
    if n <= 0 {
        seq![]
    } else if ts[n - 1].hidden {
        topics_text(ts, n - 1)
    } else {
        topics_text(ts, n - 1) + "\n\n-------------------------------- amdl "@ + ts[n - 1].name@
            + " --------------------------------\n\n"@ + ts[n - 1].help@
    }
}

pub open spec fn guide_text(version: Seq<char>, repo: Seq<char>, help: Seq<char>, ts: Seq<Topic>, workflows: Seq<char>) -> Seq<char> {
    let g = "amdl "@ + version + " — LLM guide\nRepository: "@ + repo
        + "  (read the source there if you need behavior details)\nThis is the same reference as `man amdl`, laid out plainly for LLM reading.\n\n================================ COMMAND REFERENCE ================================\n\n"@
        + help + topics_text(ts, ts.len() as int)
        + "\n\n================================ WORKFLOWS ================================\n\n"@ + workflows;
    if g.last() == '\n' {
        g
    } else {
        g.push('\n')
    }
}

/// The guide: the help of every command that is not hidden, then the workflows.
pub fn llm_guide(version: &str, repo: &str, help: &str, topics: &[Topic], workflows: &str) -> (r: String)
    ensures
        r@ == guide_text(version@, repo@, help@, topics@, workflows@),
{
    let mut o = cat5(
        "amdl ",
        version,
        " — LLM guide\nRepository: ",
        repo,
        "  (read the source there if you need behavior details)\nThis is the same reference as `man amdl`, laid out plainly for LLM reading.\n\n================================ COMMAND REFERENCE ================================\n\n",
    );
    o.append(help);
    let ghost start = o@;
    let mut i: usize = 0;
    assert(o@ =~= start + topics_text(topics@, 0));
    while i < topics.len()
        invariant
            i <= topics@.len(),
            o@ == start + topics_text(topics@, i as int),
        decreases topics@.len() - i,
    {
        if !topics[i].hidden {
            o.append("\n\n-------------------------------- amdl ");
            o.append(topics[i].name.as_str());
            o.append(" --------------------------------\n\n");
            o.append(topics[i].help.as_str());
            assert(o@ =~= start + topics_text(topics@, i + 1));
        }
        i += 1;
    }
    o.append("\n\n================================ WORKFLOWS ================================\n\n");
    let ghost head = o@;
    o.append(workflows);
    proof {
        reveal_strlit("\n\n================================ WORKFLOWS ================================\n\n");
        assert(o@.len() > 0);
    }
    let c = chars_of(o.as_str());
    let n: usize = c.len();
    if c[n - 1] != '\n' {
        o.push('\n');
    }
    assert(o@ =~= guide_text(version@, repo@, help@, topics@, workflows@));
    o
}

/// The stores of a list are its pieces without the white space round them, in their order and
/// without those that are blank.
pub proof fn law_stores(pieces: Seq<Seq<char>>)
    ensures
        stores_upto(pieces, pieces.len() as int) == pieces.map_values(|x: Seq<char>| if is_blank(x) {
            seq![]
        } else {
            seq![trimmed(x)]
        }).flatten(),
{
    lemma_stores(pieces, pieces.len() as int);
    assert(pieces.take(pieces.len() as int) =~= pieces);
}

proof fn lemma_stores(pieces: Seq<Seq<char>>, n: int)
    requires
        0 <= n <= pieces.len(),
    ensures
        stores_upto(pieces, n) == pieces.take(n).map_values(|x: Seq<char>| if is_blank(x) {
            seq![]
        } else {
            seq![trimmed(x)]
        }).flatten(),
    decreases n,
{
    let all = pieces.take(n).map_values(|x: Seq<char>| if is_blank(x) {
            seq![]
        } else {
            seq![trimmed(x)]
        });
    if n > 0 {
        lemma_stores(pieces, n - 1);
        let before = pieces.take(n - 1).map_values(|x: Seq<char>| if is_blank(x) {
            seq![]
        } else {
            seq![trimmed(x)]
        });
        assert(all =~= before.push(all[n - 1]));
        assert(pieces.take(n)[n - 1] == pieces[n - 1]);
        lemma_flatten_push(before, all[n - 1]);
        lemma_blank_trimmed(pieces[n - 1]);
        assert(stores_upto(pieces, n) =~= before.flatten() + all[n - 1]);
    } else {
        assert(all =~= seq![]);
        assert(all.flatten() =~= seq![]);
    }
}

/// The guide has a part for every command that is not hidden, with its name and its help, in their
/// order.
pub proof fn law_topics(ts: Seq<Topic>)
    ensures
        topics_text(ts, ts.len() as int) == ts.map_values(|x: Topic| if x.hidden {
            seq![]
        } else {
            "\n\n-------------------------------- amdl "@ + x.name@ + " --------------------------------\n\n"@ + x.help@
        }).flatten(),
{
    lemma_topics(ts, ts.len() as int);
    assert(ts.take(ts.len() as int) =~= ts);
}

proof fn lemma_topics(ts: Seq<Topic>, n: int)
    requires
        0 <= n <= ts.len(),
    ensures
        topics_text(ts, n) == ts.take(n).map_values(|x: Topic| if x.hidden {
            seq![]
        } else {
            "\n\n-------------------------------- amdl "@ + x.name@ + " --------------------------------\n\n"@ + x.help@
        }).flatten(),
    decreases n,
{
    let all = ts.take(n).map_values(|x: Topic| if x.hidden {
            seq![]
        } else {
            "\n\n-------------------------------- amdl "@ + x.name@ + " --------------------------------\n\n"@ + x.help@
        });
    if n > 0 {
        lemma_topics(ts, n - 1);
        let before = ts.take(n - 1).map_values(|x: Topic| if x.hidden {
            seq![]
        } else {
            "\n\n-------------------------------- amdl "@ + x.name@ + " --------------------------------\n\n"@ + x.help@
        });
        assert(all =~= before.push(all[n - 1]));
        assert(ts.take(n)[n - 1] == ts[n - 1]);
        lemma_flatten_push(before, all[n - 1]);
        assert(topics_text(ts, n) =~= before.flatten() + all[n - 1]);
    } else {
        assert(all =~= seq![]);
        assert(all.flatten() =~= seq![]);
    }
}

proof fn lemma_blank_trimmed(s: Seq<char>)
    ensures
        trimmed(s).len() == 0 <==> is_blank(s),
{
    law_trimmed(s);
    let (a, b) = choose|a: Seq<char>, b: Seq<char>| is_blank(a) && is_blank(b) && s == #[trigger] (a + trimmed(s) + b);
    let t = trimmed(s);
    if t.len() > 0 {
        assert(s[a.len() as int] == t[0]);
    } else {
        assert forall|i: int| 0 <= i < s.len() implies is_space(#[trigger] s[i]) by {
            if i < a.len() {
                assert(s[i] == a[i]);
            } else {
                assert(s[i] == b[i - a.len()]);
            }
        }
    }
}

/// A number, white space and an address, with any white space round them, mean the address for
/// the album of that number, counted from one; a number that no album has is refused, and so is
/// one that no address follows.
pub proof fn law_pasted(a: Seq<char>, n: nat, c: char, b: Seq<char>, url: Seq<char>, d: Seq<char>, albums: nat, comments: bool)
    requires
        is_blank(a),
        is_space(c),
        is_blank(b),
        is_blank(d),
        url.len() > 0 ==> !is_space(url[0]) && !is_space(url[url.len() - 1]),
        n <= u64::MAX,
    ensures
        pasted(a + decimal(n) + seq![c] + b + url + d, albums, comments) == (if n == 0 || n > albums {
            PastedV::OutOfRange(n)
        } else if url.len() == 0 {
            PastedV::NoUrl
        } else {
            PastedV::Embed(n - 1, url)
        }),
{
    let num = decimal(n);
    law_decimal(n);
    lemma_digits_solid(num);
    let line = a + num + seq![c] + b + url + d;
    let l = if url.len() > 0 {
        num + seq![c] + b + url
    } else {
        num
    };
    let e = if url.len() > 0 {
        d
    } else {
        seq![c] + b + d
    };
    assert(is_blank(e)) by {
        assert forall|i: int| 0 <= i < e.len() implies is_space(#[trigger] e[i]) by {
            if url.len() > 0 {
                assert(e[i] == d[i]);
            } else if i == 0 {
                assert(e[i] == c);
            } else if i < 1 + b.len() {
                assert(e[i] == b[i - 1]);
            } else {
                assert(e[i] == d[i - 1 - b.len()]);
            }
        }
    }
    assert(line =~= a + l + e);
    assert(l[0] == num[0]);
    if url.len() > 0 {
        assert(l[l.len() - 1] == url[url.len() - 1]);
    } else {
        assert(l[l.len() - 1] == num[num.len() - 1]);
    }
    law_trimmed_only(a, l, e);
    lemma_skip(l, 0);
    let i = skip_word(l, 0);
    assert forall|k: int| 0 <= k < num.len() implies !is_space(#[trigger] l[k]) by {
        assert(l[k] == num[k]);
    }
    if url.len() > 0 {
        assert(l[num.len() as int] == c);
    }
    assert(i == num.len());
    assert(l.take(i) =~= num);
    if url.len() > 0 {
        assert(l.skip(i + 1) =~= b + url + seq![]);
        law_trimmed_only(b, url, seq![]);
    }
    reveal_strlit("#");
    assert(!starts_with(l, "#"@)) by {
        if starts_with(l, "#"@) {
            assert(l[0] == "#"@[0]);
        }
    }
}

proof fn lemma_digits_solid(s: Seq<char>)
    requires
        all_digits(s),
        s.len() > 0,
    ensures
        forall|i: int| 0 <= i < s.len() ==> !is_space(#[trigger] s[i]),
        s[0] != '+' && s[0] != '#' && s[0] != 'd' && s[0] != 'D' && s[0] != 'q' && s[0] != 'Q',
{
    assert forall|i: int| 0 <= i < s.len() implies !is_space(#[trigger] s[i]) by {
        assert(ascii_digit(s[i]));
    }
    assert(ascii_digit(s[0]));
}

/// A blank line means nothing, and so does a comment where comments are taken; a line that starts
/// with another word than a number is refused.
pub proof fn law_pasted_other(line: Seq<char>, albums: nat, comments: bool)
    ensures
        is_blank(line) ==> pasted(line, albums, comments) == PastedV::Skip,
        pasted(line, albums, comments) == PastedV::Skip ==> is_blank(line) || (comments && exists|a: Seq<char>, b: Seq<char>|
            is_blank(a) && line == #[trigger] (a + seq!['#'] + b)),
        !is_blank(line) && pasted(line, albums, comments) !is Skip ==> (pasted(line, albums, comments) == PastedV::NoNumber
            <==> unsigned(words_of(line)[0]) is None),
{
    lemma_blank_trimmed(line);
    law_trimmed(line);
    let t = trimmed(line);
    let (a, b) = choose|a: Seq<char>, b: Seq<char>| is_blank(a) && is_blank(b) && line == #[trigger] (a + t + b);
    reveal_strlit("#");
    if t.len() > 0 {
        if starts_with(t, "#"@) {
            assert(t[0] == "#"@[0]);
            assert(line =~= a + seq!['#'] + (t.skip(1) + b));
        }
        lemma_skip(t, 0);
        lemma_skip(line, 0);
        let i = skip_word(t, 0);
        let j = skip_space(line, 0);
        assert(line[a.len() as int] == t[0]);
        assert forall|k: int| 0 <= k < a.len() implies is_space(#[trigger] line[k]) by {
            assert(line[k] == a[k]);
        }
        assert(j == a.len());
        lemma_skip(line, j);
        let e = skip_word(line, j);
        assert(e == j + i) by {
            assert forall|k: int| j <= k < j + i implies !is_space(#[trigger] line[k]) by {
                assert(line[k] == t[k - j]);
            }
            if j + i < line.len() {
                if i < t.len() {
                    assert(line[j + i] == t[i]);
                } else {
                    assert(line[j + i] == b[0]);
                }
            }
        }
        assert(line.subrange(j, e) =~= t.take(i));
        assert(words_of(line)[0] == line.subrange(j, e));
    }
}

/// A number picks the run at its place, counted from one, and only shows it where `d` stands in
/// front; a number that no run has is asked for again. `q` cancels, and an empty answer takes the
/// first run.
pub proof fn law_picked(a: Seq<char>, b: Seq<char>, d: char, gap: Seq<char>, n: nat, runs: nat)
    requires
        is_blank(a),
        is_blank(b),
        is_blank(gap),
        d == 'd' || d == 'D',
        n <= u64::MAX,
        runs <= usize::MAX,
    ensures
        picked(a + decimal(n) + b, runs) == (if 1 <= n <= runs {
            Pick::Undo((n - 1) as usize)
        } else {
            Pick::Again
        }),
        picked(a + seq![d] + gap + decimal(n) + b, runs) == (if 1 <= n <= runs {
            Pick::Preview((n - 1) as usize)
        } else {
            Pick::Again
        }),
        picked(a + seq!['q'] + b, runs) == Pick::Cancel,
        picked(a + seq!['Q'] + b, runs) == Pick::Cancel,
        picked(a, runs) == Pick::Undo(0),
        picked(a + seq![d] + b, runs) == Pick::Preview(0),
{
    let num = decimal(n);
    law_decimal(n);
    lemma_digits_solid(num);
    reveal_strlit("q");
    let q = "q"@;
    assert(ascii_lowered(q) =~= seq!['q']);
    law_trimmed_only(a, num, b);
    assert(ascii_lowered(num)[0] != 'q') by {
        assert(ascii_digit(num[0]));
    }
    let t = seq![d] + gap + num;
    assert(a + seq![d] + gap + num + b =~= a + t + b);
    assert(t[t.len() - 1] == num[num.len() - 1]);
    law_trimmed_only(a, t, b);
    assert(t.skip(1) =~= gap + num + seq![]);
    law_trimmed_only(gap, num, seq![]);
    assert(ascii_lowered(t)[0] != 'q');
    law_trimmed_only(a, seq!['q'], b);
    law_trimmed_only(a, seq!['Q'], b);
    assert(ascii_lowered(seq!['q']) =~= seq!['q']);
    assert(ascii_lowered(seq!['Q']) =~= seq!['q']);
    lemma_blank_trimmed(a);
    assert(trimmed(a) =~= seq![]);
    assert(ascii_lowered(trimmed(a)).len() == 0);
    law_trimmed_only(a, seq![d], b);
    assert(seq![d].skip(1) =~= seq![]);
    assert(ascii_lowered(seq![d])[0] != 'q');
    assert(trimmed(seq![d].skip(1)).len() == 0) by {
        lemma_blank_trimmed(seq![]);
    }
}

/// A size is written in the largest of the units, each 1024 times the one before, that it is at
/// least one of: whole bytes in bytes, and no more than a twentieth of another unit away from it,
/// in tenths.
pub proof fn law_size_text(n: nat)
    ensures
        n < 1024 ==> size_text(n) == decimal(n) + " B"@,
        n >= 1024 ==> exists|u: nat, t: nat|
            {
                &&& 1 <= u <= 4
                &&& unit_size(u) <= n
                &&& u < 4 ==> n < unit_size(u + 1)
                &&& -(unit_size(u) as int) <= 2 * (t * unit_size(u) - n * 10) <= unit_size(u)
                &&& size_text(n) == #[trigger] tenths_text(t, u)
            },
        unit_size(0) == 1,
        forall|u: nat| u < 4 ==> unit_size(u + 1) == 1024 * #[trigger] unit_size(u),
{
    if n >= 1024 {
        let u = unit_of(n);
        let t = nearest(n * 10, unit_size(u));
        law_nearest(n * 10, unit_size(u));
        assert(size_text(n) == tenths_text(t, u));
    }
}

/// So many tenths of a unit.
pub open spec fn tenths_text(t: nat, u: nat) -> Seq<char> {
    decimal(t / 10) + "."@ + decimal(t % 10) + (if u == 1 {
        " KiB"@
    } else if u == 2 {
        " MiB"@
    } else if u == 3 {
        " GiB"@
    } else {
        " TiB"@
    })
}

/// A length of time is written as the days, hours and minutes that it has, with fewer than 24
/// hours and 60 minutes; what is left is less than a minute. Days and hours are left out where
/// there are none before them.
pub proof fn law_span_text(d: nat, h: nat, m: nat, s: nat)
    requires
        h < 24,
        m < 60,
        s < 60,
    ensures
        span_text(d * 86_400 + h * 3600 + m * 60 + s) == (if d > 0 {
            decimal(d) + "d "@ + decimal(h) + "h "@ + decimal(m) + "m"@
        } else if h > 0 {
            decimal(h) + "h "@ + decimal(m) + "m"@
        } else {
            decimal(m) + "m"@
        }),
{
    let (d1, h1, m1, s1): (int, int, int, int) = (d as int, h as int, m as int, s as int);
    let x = d1 * 86_400 + h1 * 3600 + m1 * 60 + s1;
    lemma_fundamental_div_mod_converse(x, 86_400, d1, h1 * 3600 + m1 * 60 + s1);
    lemma_fundamental_div_mod_converse(h1 * 3600 + m1 * 60 + s1, 3600, h1, m1 * 60 + s1);
    lemma_fundamental_div_mod_converse(x, 3600, d1 * 24 + h1, m1 * 60 + s1);
    lemma_fundamental_div_mod_converse(m1 * 60 + s1, 60, m1, s1);
}

/// How long ago something was is told in minutes or hours to the nearest one, or in full days; up
/// to a minute and a half, two hours and two days it is told without a number.
pub proof fn law_ago_text(n: nat, off: int)
    ensures
        n < 45 ==> ago_text(n) == "just now"@,
        45 <= n < 90 ==> ago_text(n) == "a min ago"@,
        3600 <= n < 7200 ==> ago_text(n) == "an hour ago"@,
        86_400 <= n < 172_800 ==> ago_text(n) == "yesterday"@,
        -30 <= off < 30 && 90 <= 60 * n + off < 3600 ==> ago_text((60 * n + off) as nat) == decimal(n) + " min ago"@,
        -1800 <= off < 1800 && 7200 <= 3600 * n + off < 86_400 ==> ago_text((3600 * n + off) as nat) == decimal(n)
            + " h ago"@,
        0 <= off < 86_400 && n >= 2 ==> ago_text((86_400 * n + off) as nat) == decimal(n) + " days ago"@,
{
    if -1800 <= off < 1800 {
        lemma_fundamental_div_mod_converse(3600 * n + off + 1800, 3600, n as int, off + 1800);
    }
    if 0 <= off < 86_400 {
        lemma_fundamental_div_mod_converse(86_400 * n + off, 86_400, n as int, off);
    }
}

} // verus!
