//! The lines that each command prints of its result.
use vstd::prelude::*;
use crate::sort::{total};
use crate::commands::{ago_text, human_bytes, human_duration, rel_time, size_text, span_text};
use crate::covers::{fitting, StragglerV};
use crate::dedup::{DupCluster, DupClusterV, SubsetEdition, SubsetEditionV};
use crate::identify::{FileResultV, Match, MatchV};
use crate::journal::{RunInfo, UndoReport};
use crate::stats::{Count, CountV, Stats, TierCounts};
use crate::text::{cat, cat3, cat5, decimal, decimal_text, law_nearest, lemma_flatten_push, nearest};
use crate::ui::{
    Console, Metric, MetricV, Tone, has_problem, is_problem, law_tally_problem, result, result_lines, tally,
    tally_of,
};

verus! {

// ---- columns and lists -------------------------------------------------------------------------

/// So many blanks.
pub open spec fn blanks(n: int) -> Seq<char>
    decreases n,
{
    if n <= 0 {
        seq![]
    } else {
        blanks(n - 1).push(' ')
    }
}

/// A text at the left of a column.
pub open spec fn at_left(s: Seq<char>, width: int) -> Seq<char> {
    s + blanks(width - s.len())
}

/// A text at the right of a column.
pub open spec fn at_right(s: Seq<char>, width: int) -> Seq<char> {
    blanks(width - s.len()) + s
}

fn blank_text(s: &str, width: usize) -> (r: String)
    ensures
        r@ == blanks(width - s@.len()),
{
    let n: usize = crate::text::chars_of(s).len();
    let mut out = String::new();
    let mut i: usize = n;
    assert(out@ =~= blanks(n - n));
    while i < width
        invariant
            n <= i,
            i <= width || i == n,
            out@ == blanks(i - n),
        decreases width - i,
    {
        out.push(' ');
        assert(out@ =~= blanks(i + 1 - n));
        i += 1;
    }
    out
}

fn left(s: &str, width: usize) -> (r: String)
    ensures
        r@ == at_left(s@, width as int),
{
    cat(s, blank_text(s, width).as_str())
}

fn right(s: &str, width: usize) -> (r: String)
    ensures
        r@ == at_right(s@, width as int),
{
    cat(blank_text(s, width).as_str(), s)
}

fn put(out: &mut Vec<String>, line: String)
    ensures
        final(out).deep_view() == old(out).deep_view().push(line@),
{
    let ghost before = out.deep_view();
    let ghost l = line@;
    out.push(line);
    assert(out.deep_view() =~= before.push(l));
}

fn number(n: usize) -> (r: String)
    ensures
        r@ == decimal(n as nat),
{
    decimal_text(n as u64)
}

fn sum(a: usize, b: usize) -> (r: usize)
    ensures
        r == fitting((a + b) as nat),
{
    if usize::MAX - a < b {
        usize::MAX
    } else {
        a + b
    }
}

/// A list that is cut after `cap` items.
pub open spec fn capped(items: Seq<Seq<char>>, cap: int) -> Seq<Seq<char>> {
    if items.len() > cap {
        items.take(cap)
    } else {
        items
    }
}

/// Lines with so much in front.
pub open spec fn indented(front: Seq<char>, items: Seq<Seq<char>>) -> Seq<Seq<char>> {
    items.map_values(|s: Seq<char>| front + s)
}

fn add_indented(out: &mut Vec<String>, front: &str, items: &[String], cap: usize)
    ensures
        final(out).deep_view() == old(out).deep_view() + indented(front@, capped(items.deep_view(), cap as int)),
{
    let ghost start = out.deep_view();
    let ghost iv = items.deep_view();
    let ghost want = indented(front@, capped(iv, cap as int));
    let n: usize = if items.len() > cap {
        cap
    } else {
        items.len()
    };
    let mut i: usize = 0;
    assert(out.deep_view() =~= start + want.take(0));
    while i < n
        invariant
            i <= n <= items@.len(),
            iv == items.deep_view(),
            n == want.len(),
            want == indented(front@, capped(iv, cap as int)),
            out.deep_view() == start + want.take(i as int),
        decreases n - i,
    {
        assert(iv[i as int] == items@[i as int]@);
        put(out, cat(front, items[i].as_str()));
        assert(want.take(i + 1) =~= want.take(i as int).push(want[i as int]));
        assert(out.deep_view() =~= start + want.take(i + 1));
        i += 1;
    }
    assert(want.take(i as int) =~= want);
}

// ---- stats -------------------------------------------------------------------------------------

pub open spec fn count_text(name: Seq<char>, count: int, width: int) -> Seq<char> {
    "    "@ + at_left(name, width) + " "@ + decimal(count as nat)
}

fn count_line(name: &str, count: usize, width: usize) -> (r: String)
    ensures
        r@ == count_text(name@, count as int, width as int),
{
    let padded = left(name, width);
    let n = number(count);
    let mut o = cat3("    ", padded.as_str(), " ");
    o.append(n.as_str());
    o
}

pub open spec fn count_lines(cs: Seq<CountV>) -> Seq<Seq<char>> {
    cs.map_values(|c: CountV| count_text(c.name, c.count, 10))
}

fn add_counts(out: &mut Vec<String>, cs: &[Count])
    ensures
        final(out).deep_view() == old(out).deep_view() + count_lines(cs.deep_view()),
{
    let ghost start = out.deep_view();
    let ghost cv = cs.deep_view();
    let ghost want = count_lines(cv);
    let mut i: usize = 0;
    assert(out.deep_view() =~= start + want.take(0));
    while i < cs.len()
        invariant
            i <= cs@.len(),
            cv == cs.deep_view(),
            want == count_lines(cv),
            want.len() == cs@.len(),
            out.deep_view() == start + want.take(i as int),
        decreases cs@.len() - i,
    {
        assert(cv[i as int] == cs@[i as int].deep_view());
        put(out, count_line(cs[i].name.as_str(), cs[i].count, 10));
        assert(want.take(i + 1) =~= want.take(i as int).push(want[i as int]));
        assert(out.deep_view() =~= start + want.take(i + 1));
        i += 1;
    }
    assert(want.take(i as int) =~= want);
}

/// A list of counts under a label; nothing where there are none.
pub open spec fn spread_lines(label: Seq<char>, cs: Seq<CountV>) -> Seq<Seq<char>> {
    if cs.len() == 0 {
        seq![]
    } else {
        seq!["  "@ + label + ":"@] + count_lines(cs)
    }
}

fn add_spread(out: &mut Vec<String>, label: &str, cs: &[Count])
    ensures
        final(out).deep_view() == old(out).deep_view() + spread_lines(label@, cs.deep_view()),
{
    let ghost start = out.deep_view();
    assert(cs.deep_view().len() == cs@.len());
    if cs.len() > 0 {
        put(out, cat3("  ", label, ":"));
        add_counts(out, cs);
    }
    assert(out.deep_view() =~= start + spread_lines(label@, cs.deep_view()));
}

pub open spec fn bitrate_lines(s: Stats) -> Seq<Seq<char>> {
    let b = s.bitrate_kbps;
    seq!["  bitrate (kbps):"@] + (if b.avg > 0 {
        seq![
            "    min "@ + decimal(b.min as nat) + "  ·  avg "@ + decimal(b.avg as nat) + "  ·  max "@ + decimal(
                b.max as nat,
            ),
        ]
    } else {
        seq![]
    }) + count_lines(b.distribution.deep_view()) + (if b.unknown > 0 {
        seq![count_text("unknown"@, b.unknown as int, 10)]
    } else {
        seq![]
    })
}

fn add_bitrate(out: &mut Vec<String>, s: &Stats)
    ensures
        final(out).deep_view() == old(out).deep_view() + bitrate_lines(*s),
{
    let ghost start = out.deep_view();
    let b = &s.bitrate_kbps;
    put(out, "  bitrate (kbps):".to_string());
    if b.avg > 0 {
        let lo = decimal_text(b.min as u64);
        let avg = decimal_text(b.avg as u64);
        let hi = decimal_text(b.max as u64);
        let mut o = cat5("    min ", lo.as_str(), "  ·  avg ", avg.as_str(), "  ·  max ");
        o.append(hi.as_str());
        put(out, o);
    }
    add_counts(out, &b.distribution);
    if b.unknown > 0 {
        put(out, count_line("unknown", b.unknown, 10));
    }
    assert(out.deep_view() =~= start + bitrate_lines(*s));
}

pub open spec fn tier_text(c: TierCounts) -> Seq<char> {
    "none "@ + decimal(c.none as nat) + "  plain "@ + decimal(c.plain as nat) + "  generated "@ + decimal(
        c.generated as nat,
    ) + "  synced "@ + decimal(c.synced as nat)
}

fn tier_line(front: &str, c: &TierCounts) -> (r: String)
    ensures
        r@ == front@ + tier_text(*c),
{
    let none = number(c.none);
    let plain = number(c.plain);
    let generated = number(c.generated);
    let synced = number(c.synced);
    let mut t = cat5("none ", none.as_str(), "  plain ", plain.as_str(), "  generated ");
    t.append(generated.as_str());
    t.append("  synced ");
    t.append(synced.as_str());
    cat(front, t.as_str())
}

pub open spec fn cover_and_tag_lines(s: Stats) -> Seq<Seq<char>> {
    seq![
        "  cover art:"@,
        count_text("embedded"@, s.with_cover as int, 10),
        count_text("missing"@, s.without_cover as int, 10),
        "  tags:"@,
        count_text("fully tagged"@, s.fully_tagged as int, 14),
        count_text("missing title"@, s.missing_title as int, 14),
        count_text("missing artist"@, s.missing_artist as int, 14),
        count_text("missing album"@, s.missing_album as int, 14),
    ]
}

fn add_cover_and_tags(out: &mut Vec<String>, s: &Stats)
    ensures
        final(out).deep_view() == old(out).deep_view() + cover_and_tag_lines(*s),
{
    let ghost start = out.deep_view();
    put(out, "  cover art:".to_string());
    put(out, count_line("embedded", s.with_cover, 10));
    put(out, count_line("missing", s.without_cover, 10));
    put(out, "  tags:".to_string());
    put(out, count_line("fully tagged", s.fully_tagged, 14));
    put(out, count_line("missing title", s.missing_title, 14));
    put(out, count_line("missing artist", s.missing_artist, 14));
    put(out, count_line("missing album", s.missing_album, 14));
    assert(out.deep_view() =~= start + cover_and_tag_lines(*s));
}

pub open spec fn lyric_lines(s: Stats) -> Seq<Seq<char>> {
    let l = s.lyrics;
    seq![
        "  lyrics:"@,
        "    sidecar   "@ + tier_text(l.sidecar),
        "    embedded  "@ + tier_text(l.embedded),
        "    coverage  timed "@ + decimal(l.timed_anywhere as nat) + "  ·  plain-only "@ + decimal(l.plain_only as nat)
            + "  ·  none "@ + decimal(l.none_anywhere as nat),
    ]
}

fn add_lyrics(out: &mut Vec<String>, s: &Stats)
    ensures
        final(out).deep_view() == old(out).deep_view() + lyric_lines(*s),
{
    let ghost start = out.deep_view();
    let l = &s.lyrics;
    put(out, "  lyrics:".to_string());
    put(out, tier_line("    sidecar   ", &l.sidecar));
    put(out, tier_line("    embedded  ", &l.embedded));
    let timed = number(l.timed_anywhere);
    let plain = number(l.plain_only);
    let none = number(l.none_anywhere);
    let mut o = cat5("    coverage  timed ", timed.as_str(), "  ·  plain-only ", plain.as_str(), "  ·  none ");
    o.append(none.as_str());
    put(out, o);
    assert(out.deep_view() =~= start + lyric_lines(*s));
}

pub open spec fn stats_metrics(s: Stats) -> Seq<MetricV> {
    seq![
        tally_of("tracks"@, s.tracks as nat, Tone::Good),
        tally_of("artists"@, s.artists as nat, Tone::Good),
        tally_of("albums"@, s.albums as nat, Tone::Good),
        tally_of("no-cover"@, s.without_cover as nat, Tone::Warn),
        tally_of("unreadable"@, s.unreadable as nat, Tone::Bad),
    ]
}

pub open spec fn stats_headline(s: Stats) -> Seq<char> {
    "stats · "@ + s.root@ + " · "@ + size_text(s.total_bytes as nat) + " · "@ + span_text(s.total_duration_secs as nat)
}

pub open spec fn stats_lines(c: Console, s: Stats) -> Seq<Seq<char>> {
    let head = result_lines(c, stats_headline(s), false, stats_metrics(s), seq![]);
    if c.verbosity == 0 {
        head
    } else {
        head + spread_lines("formats"@, s.formats.deep_view()) + bitrate_lines(s) + spread_lines(
            "sample rate (Hz)"@,
            s.sample_rates.deep_view(),
        ) + spread_lines("channels"@, s.channels.deep_view()) + cover_and_tag_lines(s) + lyric_lines(s)
    }
}

fn no_hints() -> (r: Vec<String>)
    ensures
        r.deep_view() == Seq::<Seq<char>>::empty(),
{
    let v: Vec<String> = Vec::new();
    assert(v.deep_view() =~= Seq::<Seq<char>>::empty());
    v
}

/// The lines of an overview.
pub fn print_stats(c: &Console, s: &Stats) -> (r: Vec<String>)
    ensures
        r.deep_view() == stats_lines(*c, *s),
{
    let metrics: Vec<Metric> = vec![
        tally("tracks", s.tracks, Tone::Good),
        tally("artists", s.artists, Tone::Good),
        tally("albums", s.albums, Tone::Good),
        tally("no-cover", s.without_cover, Tone::Warn),
        tally("unreadable", s.unreadable, Tone::Bad),
    ];
    assert(metrics.deep_view() =~= stats_metrics(*s));
    let size = human_bytes(s.total_bytes);
    let span = human_duration(s.total_duration_secs);
    let mut head = cat5("stats · ", s.root.as_str(), " · ", size.as_str(), " · ");
    head.append(span.as_str());
    let mut out = result(c, head.as_str(), false, &metrics, &no_hints());
    if c.verbosity == 0 {
        return out;
    }
    add_spread(&mut out, "formats", &s.formats);
    add_bitrate(&mut out, s);
    add_spread(&mut out, "sample rate (Hz)", &s.sample_rates);
    add_spread(&mut out, "channels", &s.channels);
    add_cover_and_tags(&mut out, s);
    add_lyrics(&mut out, s);
    out
}

// ---- doctor ------------------------------------------------------------------------------------

pub open spec fn health_metrics(h: crate::doctor::Health) -> Seq<MetricV> {
    seq![
        tally_of("missing-cover"@, h.missing_cover@.len(), Tone::Warn),
        tally_of("missing-tags"@, h.missing_tags@.len(), Tone::Warn),
        tally_of("unreadable"@, h.unreadable@.len(), Tone::Bad),
        tally_of("truncated"@, h.truncated@.len(), Tone::Bad),
        tally_of("corrupt"@, h.corrupt@.len(), Tone::Bad),
        tally_of("no-opus"@, h.source_without_opus@.len(), Tone::Warn),
    ]
}

pub open spec fn hint_if(b: bool, text: Seq<char>) -> Seq<Seq<char>> {
    if b {
        seq![text]
    } else {
        seq![]
    }
}

pub open spec fn health_hints(h: crate::doctor::Health) -> Seq<Seq<char>> {
    hint_if(h.missing_cover@.len() > 0, "fill covers: `amdl covers --source … --online`"@) + hint_if(
        h.missing_tags@.len() > 0,
        "fix tags: `amdl identify --apply` (by sound) or `amdl tag …`"@,
    ) + hint_if(
        h.truncated@.len() > 0,
        "truncated: delete the bad .opus, then `amdl convert` regenerates it (W3)"@,
    ) + hint_if(h.corrupt@.len() > 0, "corrupt: re-convert from source, or `amdl recover`"@) + hint_if(
        h.source_without_opus@.len() > 0,
        "unconverted sources: `amdl recover --source …`"@,
    )
}

/// A list of files under a label, cut after eight unless verbose.
pub open spec fn file_list(c: Console, label: Seq<char>, v: Seq<Seq<char>>) -> Seq<Seq<char>> {
    let cap = if c.verbosity >= 2 {
        v.len() as int
    } else {
        8
    };
    if v.len() == 0 {
        seq![]
    } else {
        seq!["  "@ + label + ":"@] + indented("    "@, capped(v, cap)) + (if v.len() > cap {
            seq!["    … and "@ + decimal((v.len() - cap) as nat) + " more (--json for all, -v to list)"@]
        } else {
            seq![]
        })
    }
}

fn add_file_list(out: &mut Vec<String>, c: &Console, label: &str, v: &[String])
    ensures
        final(out).deep_view() == old(out).deep_view() + file_list(*c, label@, v.deep_view()),
{
    let ghost start = out.deep_view();
    assert(v.deep_view().len() == v@.len());
    if v.len() > 0 {
        let cap: usize = if c.verbosity >= 2 {
            v.len()
        } else {
            8
        };
        put(out, cat3("  ", label, ":"));
        add_indented(out, "    ", v, cap);
        if v.len() > cap {
            let n = number(v.len() - cap);
            put(out, cat3("    … and ", n.as_str(), " more (--json for all, -v to list)"));
        }
    }
    assert(out.deep_view() =~= start + file_list(*c, label@, v.deep_view()));
}

pub open spec fn health_lines(c: Console, h: crate::doctor::Health) -> Seq<Seq<char>> {
    let head = result_lines(
        c,
        "doctor · "@ + decimal(h.total as nat) + " opus scanned"@,
        false,
        health_metrics(h),
        health_hints(h),
    );
    if c.verbosity == 0 {
        head
    } else {
        head + file_list(c, "unreadable"@, h.unreadable.deep_view()) + file_list(
            c,
            "missing cover"@,
            h.missing_cover.deep_view(),
        ) + file_list(c, "missing tags"@, h.missing_tags.deep_view()) + file_list(
            c,
            "truncated"@,
            h.truncated.deep_view(),
        ) + file_list(c, "corrupt (failed decode)"@, h.corrupt.deep_view()) + file_list(
            c,
            "source without opus"@,
            h.source_without_opus.deep_view(),
        )
    }
}

fn health_hint_list(h: &crate::doctor::Health) -> (r: Vec<String>)
    ensures
        r.deep_view() == health_hints(*h),
{
    let mut hints: Vec<String> = Vec::new();
    assert(hints.deep_view() =~= seq![]);
    if h.missing_cover.len() > 0 {
        put(&mut hints, "fill covers: `amdl covers --source … --online`".to_string());
    }
    if h.missing_tags.len() > 0 {
        put(&mut hints, "fix tags: `amdl identify --apply` (by sound) or `amdl tag …`".to_string());
    }
    if h.truncated.len() > 0 {
        put(
            &mut hints,
            "truncated: delete the bad .opus, then `amdl convert` regenerates it (W3)".to_string(),
        );
    }
    if h.corrupt.len() > 0 {
        put(&mut hints, "corrupt: re-convert from source, or `amdl recover`".to_string());
    }
    if h.source_without_opus.len() > 0 {
        put(&mut hints, "unconverted sources: `amdl recover --source …`".to_string());
    }
    assert(hints.deep_view() =~= health_hints(*h));
    hints
}

/// The lines on the health of a library.
pub fn print_health(c: &Console, h: &crate::doctor::Health) -> (r: Vec<String>)
    ensures
        r.deep_view() == health_lines(*c, *h),
{
    let metrics: Vec<Metric> = vec![
        tally("missing-cover", h.missing_cover.len(), Tone::Warn),
        tally("missing-tags", h.missing_tags.len(), Tone::Warn),
        tally("unreadable", h.unreadable.len(), Tone::Bad),
        tally("truncated", h.truncated.len(), Tone::Bad),
        tally("corrupt", h.corrupt.len(), Tone::Bad),
        tally("no-opus", h.source_without_opus.len(), Tone::Warn),
    ];
    assert(metrics.deep_view() =~= health_metrics(*h));
    let hints = health_hint_list(h);
    let n = number(h.total);
    let head = cat3("doctor · ", n.as_str(), " opus scanned");
    let mut out = result(c, head.as_str(), false, &metrics, &hints);
    if c.verbosity == 0 {
        return out;
    }
    add_file_list(&mut out, c, "unreadable", &h.unreadable);
    add_file_list(&mut out, c, "missing cover", &h.missing_cover);
    add_file_list(&mut out, c, "missing tags", &h.missing_tags);
    add_file_list(&mut out, c, "truncated", &h.truncated);
    add_file_list(&mut out, c, "corrupt (failed decode)", &h.corrupt);
    add_file_list(&mut out, c, "source without opus", &h.source_without_opus);
    out
}

// ---- covers ------------------------------------------------------------------------------------

pub open spec fn straggler_text(n: int, album: Seq<char>, artist: Seq<char>, tracks: int) -> Seq<char> {
    "  "@ + at_right(decimal(n as nat), 3) + ". "@ + album + " — "@ + artist + " ("@ + decimal(tracks as nat)
        + " tracks)"@
}

/// The line of an album that still needs a cover.
pub fn straggler_line(n: usize, album: &str, artist: &str, tracks: usize) -> (r: String)
    ensures
        r@ == straggler_text(n as int, album@, artist@, tracks as int),
{
    let k = number(n);
    let padded = right(k.as_str(), 3);
    let t = number(tracks);
    let mut o = cat5("  ", padded.as_str(), ". ", album, " — ");
    o.append(artist);
    o.append(" (");
    o.append(t.as_str());
    o.append(" tracks)");
    o
}

pub open spec fn covers_metrics(r: crate::covers::Report) -> Seq<MetricV> {
    seq![
        tally_of("filled"@, r.albums_filled as nat, Tone::Good),
        tally_of("from-source"@, r.filled_from_source as nat, Tone::Good),
        tally_of("from-reference"@, r.filled_from_reference as nat, Tone::Good),
        tally_of("online"@, r.filled_online as nat, Tone::Good),
        tally_of("still-need-cover"@, r.stragglers@.len(), Tone::Warn),
    ]
}

pub open spec fn covers_lines(c: Console, r: crate::covers::Report) -> Seq<Seq<char>> {
    let head = result_lines(
        c,
        "covers · "@ + decimal(r.coverless_albums as nat) + " coverless album(s)"@,
        r.dry_run,
        covers_metrics(r),
        hint_if(
            r.stragglers@.len() > 0,
            "resolve the rest by number: `--paste` (interactive) or `--paste-file <n\\turl>` (scriptable)"@,
        ),
    );
    if c.verbosity == 0 {
        head
    } else {
        head + r.stragglers.deep_view().map_values(
            |s: StragglerV| straggler_text(s.n, s.album, s.artist, s.tracks),
        )
    }
}

/// The lines on a run that filled covers.
pub fn print_covers(c: &Console, r: &crate::covers::Report) -> (o: Vec<String>)
    ensures
        o.deep_view() == covers_lines(*c, *r),
{
    let metrics: Vec<Metric> = vec![
        tally("filled", r.albums_filled, Tone::Good),
        tally("from-source", r.filled_from_source, Tone::Good),
        tally("from-reference", r.filled_from_reference, Tone::Good),
        tally("online", r.filled_online, Tone::Good),
        tally("still-need-cover", r.stragglers.len(), Tone::Warn),
    ];
    assert(metrics.deep_view() =~= covers_metrics(*r));
    let mut hints: Vec<String> = Vec::new();
    assert(hints.deep_view() =~= seq![]);
    if r.stragglers.len() > 0 {
        put(
            &mut hints,
            "resolve the rest by number: `--paste` (interactive) or `--paste-file <n\\turl>` (scriptable)".to_string(),
        );
    }
    let ghost hv = hint_if(
        r.stragglers@.len() > 0,
        "resolve the rest by number: `--paste` (interactive) or `--paste-file <n\\turl>` (scriptable)"@,
    );
    assert(hints.deep_view() =~= hv);
    let n = number(r.coverless_albums);
    let head = cat3("covers · ", n.as_str(), " coverless album(s)");
    let mut out = result(c, head.as_str(), r.dry_run, &metrics, &hints);
    if c.verbosity == 0 {
        return out;
    }
    let ghost start = out.deep_view();
    let ghost sv = r.stragglers.deep_view();
    let ghost want = sv.map_values(|s: StragglerV| straggler_text(s.n, s.album, s.artist, s.tracks));
    let mut i: usize = 0;
    assert(out.deep_view() =~= start + want.take(0));
    while i < r.stragglers.len()
        invariant
            i <= r.stragglers@.len(),
            sv == r.stragglers.deep_view(),
            want == sv.map_values(|s: StragglerV| straggler_text(s.n, s.album, s.artist, s.tracks)),
            want.len() == r.stragglers@.len(),
            out.deep_view() == start + want.take(i as int),
        decreases r.stragglers@.len() - i,
    {
        let s = &r.stragglers[i];
        assert(sv[i as int] == s.deep_view());
        put(&mut out, straggler_line(s.n, s.album.as_str(), s.artist.as_str(), s.tracks));
        assert(want.take(i + 1) =~= want.take(i as int).push(want[i as int]));
        assert(out.deep_view() =~= start + want.take(i + 1));
        i += 1;
    }
    assert(want.take(i as int) =~= want);
    out
}

// ---- recover -----------------------------------------------------------------------------------

pub open spec fn recover_metrics(r: crate::recover::Report) -> Seq<MetricV> {
    seq![
        tally_of("broken"@, r.broken as nat, Tone::Warn),
        tally_of("from-sibling"@, r.recovered_from_sibling as nat, Tone::Good),
        tally_of("re-acquired"@, r.reacquired as nat, Tone::Good),
        tally_of("regrouped"@, r.regrouped as nat, Tone::Good),
        tally_of("still-broken"@, r.still_broken@.len(), Tone::Warn),
    ]
}

pub open spec fn recover_lines(c: Console, r: crate::recover::Report) -> Seq<Seq<char>> {
    let head = result_lines(
        c,
        "recover"@,
        r.dry_run,
        recover_metrics(r),
        hint_if(
            r.still_broken@.len() > 0 && !r.dry_run,
            "still broken: try `--online` to re-acquire, or `--reference <lib>` to copy from a sibling library"@,
        ),
    );
    let v = r.still_broken.deep_view();
    let cap = if c.verbosity >= 2 {
        v.len() as int
    } else {
        20
    };
    if c.verbosity == 0 {
        head
    } else {
        head + indented("    "@, capped(v, cap)) + (if v.len() > cap {
            seq!["    … and "@ + decimal((v.len() - cap) as nat) + " more (-v to list)"@]
        } else {
            seq![]
        })
    }
}

/// The lines on a run that recovered tracks.
pub fn print_recover(c: &Console, r: &crate::recover::Report) -> (o: Vec<String>)
    ensures
        o.deep_view() == recover_lines(*c, *r),
{
    let metrics: Vec<Metric> = vec![
        tally("broken", r.broken, Tone::Warn),
        tally("from-sibling", r.recovered_from_sibling, Tone::Good),
        tally("re-acquired", r.reacquired, Tone::Good),
        tally("regrouped", r.regrouped, Tone::Good),
        tally("still-broken", r.still_broken.len(), Tone::Warn),
    ];
    assert(metrics.deep_view() =~= recover_metrics(*r));
    let mut hints: Vec<String> = Vec::new();
    assert(hints.deep_view() =~= seq![]);
    if r.still_broken.len() > 0 && !r.dry_run {
        put(
            &mut hints,
            "still broken: try `--online` to re-acquire, or `--reference <lib>` to copy from a sibling library".to_string(),
        );
    }
    let ghost hv = hint_if(
        r.still_broken@.len() > 0 && !r.dry_run,
        "still broken: try `--online` to re-acquire, or `--reference <lib>` to copy from a sibling library"@,
    );
    assert(hints.deep_view() =~= hv);
    let mut out = result(c, "recover", r.dry_run, &metrics, &hints);
    if c.verbosity == 0 {
        return out;
    }
    let ghost head = out.deep_view();
    assert(r.still_broken.deep_view().len() == r.still_broken@.len());
    let cap: usize = if c.verbosity >= 2 {
        r.still_broken.len()
    } else {
        20
    };
    add_indented(&mut out, "    ", &r.still_broken, cap);
    if r.still_broken.len() > cap {
        let n = number(r.still_broken.len() - cap);
        put(&mut out, cat3("    … and ", n.as_str(), " more (-v to list)"));
    }
    assert(out.deep_view() =~= recover_lines(*c, *r));
    out
}

// ---- undo --------------------------------------------------------------------------------------

pub open spec fn undo_lines(c: Console, r: UndoReport) -> Seq<Seq<char>> {
    let head = result_lines(
        c,
        "undo · "@ + (match r.command {
            Some(x) => x@,
            None => match r.run {
                Some(id) => id@,
                None => seq![],
            },
        }),
        r.dry_run,
        seq![
            tally_of("reverted"@, r.reverted as nat, Tone::Good),
            tally_of("skipped"@, r.skipped@.len(), Tone::Bad),
        ],
        seq![],
    );
    if c.verbosity == 0 {
        head
    } else {
        head + indented("    skipped: "@, r.skipped.deep_view())
    }
}

/// The lines on a run that was undone; nothing where there was none to undo.
pub fn print_undo(c: &Console, r: &UndoReport) -> (o: Option<Vec<String>>)
    ensures
        match o {
            Some(v) => r.run is Some && v.deep_view() == undo_lines(*c, *r),
            None => r.run is None,
        },
{
    let run = match &r.run {
        None => {
            return None;
        },
        Some(run) => run,
    };
    let metrics: Vec<Metric> = vec![
        tally("reverted", r.reverted, Tone::Good),
        tally("skipped", r.skipped.len(), Tone::Bad),
    ];
    assert(metrics.deep_view() =~= seq![
        tally_of("reverted"@, r.reverted as nat, Tone::Good),
        tally_of("skipped"@, r.skipped@.len(), Tone::Bad),
    ]);
    let head = match &r.command {
        Some(x) => cat("undo · ", x.as_str()),
        None => cat("undo · ", run.as_str()),
    };
    let mut out = result(c, head.as_str(), r.dry_run, &metrics, &no_hints());
    if c.verbosity != 0 {
        add_indented(&mut out, "    skipped: ", &r.skipped, r.skipped.len());
    }
    assert(out.deep_view() =~= undo_lines(*c, *r));
    Some(out)
}

pub open spec fn run_text(marker: Seq<char>, i: int, run: RunInfo, age: nat) -> Seq<char> {
    "  "@ + marker + " "@ + at_right(decimal((i + 1) as nat), 2) + "  "@ + at_left(ago_text(age), 11) + "  "@ + at_left(
        run.summary@,
        40,
    ) + "  "@ + decimal(run.changes as nat) + " file(s)"@
}

pub open spec fn age_of(run: RunInfo, now: u64) -> nat {
    if now > run.started_unix {
        (now - run.started_unix) as nat
    } else {
        0
    }
}

/// The line of the run at place `i` in the list to pick from. The first is marked.
pub fn run_line(i: usize, run: &RunInfo, now: u64) -> (r: String)
    requires
        i < usize::MAX,
    ensures
        r@ == run_text(
            if i == 0 {
                ">"@
            } else {
                " "@
            },
            i as int,
            *run,
            age_of(*run, now),
        ),
{
    let place = number(i + 1);
    let place = right(place.as_str(), 2);
    let age = rel_time(run.started_unix, now);
    let age = left(age.as_str(), 11);
    let summary = left(run.summary.as_str(), 40);
    let n = number(run.changes);
    let mut o = cat5(
        "  ",
        if i == 0 {
            ">"
        } else {
            " "
        },
        " ",
        place.as_str(),
        "  ",
    );
    o.append(age.as_str());
    o.append("  ");
    o.append(summary.as_str());
    o.append("  ");
    o.append(n.as_str());
    o.append(" file(s)");
    o
}

pub open spec fn listed_run_text(run: RunInfo, age: nat) -> Seq<char> {
    "  "@ + at_left(ago_text(age), 11) + "  "@ + at_left(run.summary@, 40) + "  "@ + decimal(run.changes as nat)
        + " file(s)   ["@ + run.id@ + "]"@
}

/// The line of a run in the list of all.
pub fn listed_run_line(run: &RunInfo, now: u64) -> (r: String)
    ensures
        r@ == listed_run_text(*run, age_of(*run, now)),
{
    let age = rel_time(run.started_unix, now);
    let age = left(age.as_str(), 11);
    let summary = left(run.summary.as_str(), 40);
    let n = number(run.changes);
    let mut o = cat5("  ", age.as_str(), "  ", summary.as_str(), "  ");
    o.append(n.as_str());
    o.append(" file(s)   [");
    o.append(run.id.as_str());
    o.append("]");
    o
}

// ---- dedup -------------------------------------------------------------------------------------

/// How many files the first `n` groups would let go.
pub open spec fn cluster_total(ds: Seq<DupClusterV>, n: int) -> nat
    decreases n,
{
    if n <= 0 {
        0
    } else {
        cluster_total(ds, n - 1) + ds[n - 1].remove.len()
    }
}

pub open spec fn subset_total(ss: Seq<SubsetEditionV>, n: int) -> nat
    decreases n,
{
    if n <= 0 {
        0
    } else {
        subset_total(ss, n - 1) + ss[n - 1].remove.len()
    }
}

pub open spec fn redundant(r: crate::dedup::Report) -> int {
    fitting(
        cluster_total(r.exact_duplicates.deep_view(), r.exact_duplicates@.len() as int) + subset_total(
            r.subset_editions.deep_view(),
            r.subset_editions@.len() as int,
        ),
    )
}

fn count_redundant(r: &crate::dedup::Report) -> (n: usize)
    ensures
        n == redundant(*r),
{
    let ghost dv = r.exact_duplicates.deep_view();
    let ghost sv = r.subset_editions.deep_view();
    let mut n: usize = 0;
    let mut i: usize = 0;
    while i < r.exact_duplicates.len()
        invariant
            i <= r.exact_duplicates@.len(),
            dv == r.exact_duplicates.deep_view(),
            n == fitting(cluster_total(dv, i as int)),
        decreases r.exact_duplicates@.len() - i,
    {
        assert(dv[i as int] == r.exact_duplicates@[i as int].deep_view());
        assert(dv[i as int].remove.len() == r.exact_duplicates@[i as int].remove@.len());
        n = sum(n, r.exact_duplicates[i].remove.len());
        i += 1;
    }
    let ghost first = cluster_total(dv, dv.len() as int);
    let mut k: usize = 0;
    while k < r.subset_editions.len()
        invariant
            k <= r.subset_editions@.len(),
            sv == r.subset_editions.deep_view(),
            n == fitting(first + subset_total(sv, k as int)),
        decreases r.subset_editions@.len() - k,
    {
        assert(sv[k as int] == r.subset_editions@[k as int].deep_view());
        assert(sv[k as int].remove.len() == r.subset_editions@[k as int].remove@.len());
        n = sum(n, r.subset_editions[k].remove.len());
        k += 1;
    }
    n
}

pub open spec fn cluster_lines(d: DupClusterV) -> Seq<Seq<char>> {
    seq![
        "  "@ + d.artist + " — "@ + d.title + " · "@ + d.album + (if d.durations_diverge {
            "  [durations differ — may be distinct versions]"@
        } else {
            ""@
        }),
        "    keep:   "@ + d.keep,
    ] + indented("    remove: "@, d.remove)
}

pub open spec fn subset_lines(s: SubsetEditionV) -> Seq<Seq<char>> {
    seq![
        "  "@ + s.artist + " — "@ + s.album + " ("@ + decimal(s.tracks as nat) + " tracks) ⊂ "@ + s.covered_by,
    ] + indented("    remove: "@, s.remove)
}

pub open spec fn all_cluster_lines(ds: Seq<DupClusterV>, n: int) -> Seq<Seq<char>>
    decreases n,
{
    if n <= 0 {
        seq![]
    } else {
        all_cluster_lines(ds, n - 1) + cluster_lines(ds[n - 1])
    }
}

pub open spec fn all_subset_lines(ss: Seq<SubsetEditionV>, n: int) -> Seq<Seq<char>>
    decreases n,
{
    if n <= 0 {
        seq![]
    } else {
        all_subset_lines(ss, n - 1) + subset_lines(ss[n - 1])
    }
}

fn add_cluster(out: &mut Vec<String>, d: &DupCluster)
    ensures
        final(out).deep_view() == old(out).deep_view() + cluster_lines(d.deep_view()),
{
    let ghost start = out.deep_view();
    let mut o = cat5("  ", d.artist.as_str(), " — ", d.title.as_str(), " · ");
    o.append(d.album.as_str());
    o.append(
        if d.durations_diverge {
            "  [durations differ — may be distinct versions]"
        } else {
            ""
        },
    );
    put(out, o);
    put(out, cat("    keep:   ", d.keep.as_str()));
    add_indented(out, "    remove: ", &d.remove, d.remove.len());
    assert(out.deep_view() =~= start + cluster_lines(d.deep_view()));
}

fn add_subset(out: &mut Vec<String>, s: &SubsetEdition)
    ensures
        final(out).deep_view() == old(out).deep_view() + subset_lines(s.deep_view()),
{
    let ghost start = out.deep_view();
    let n = number(s.tracks);
    let mut o = cat5("  ", s.artist.as_str(), " — ", s.album.as_str(), " (");
    o.append(n.as_str());
    o.append(" tracks) ⊂ ");
    o.append(s.covered_by.as_str());
    put(out, o);
    add_indented(out, "    remove: ", &s.remove, s.remove.len());
    assert(out.deep_view() =~= start + subset_lines(s.deep_view()));
}

/// How many groups are listed.
pub const MAX_GROUPS: usize = 30;

pub open spec fn more_groups(n: nat, unit: Seq<char>) -> Seq<Seq<char>> {
    if n > MAX_GROUPS {
        seq!["    … and "@ + decimal((n - MAX_GROUPS) as nat) + unit]
    } else {
        seq![]
    }
}

pub open spec fn group_count(n: nat) -> int {
    if n > MAX_GROUPS {
        MAX_GROUPS as int
    } else {
        n as int
    }
}

/// The lines on groups of the same recording.
pub open spec fn duplicates_lines(c: Console, ds: Seq<DupClusterV>) -> Seq<Seq<char>> {
    if ds.len() == 0 {
        seq![]
    } else {
        seq![
            crate::ui::painted(
                c.color_out,
                "1;33"@,
                "⚠"@,
                "exact-duplicate recordings (keep one, the rest are redundant):"@,
            ),
        ] + all_cluster_lines(ds, group_count(ds.len())) + more_groups(ds.len(), " more groups"@)
    }
}

pub open spec fn subsets_lines(c: Console, ss: Seq<SubsetEditionV>) -> Seq<Seq<char>> {
    if ss.len() == 0 {
        seq![]
    } else {
        seq![
            crate::ui::painted(
                c.color_out,
                "1;33"@,
                "⚠"@,
                "subset editions — one edition wholly contained in another (heuristic):"@,
            ),
        ] + all_subset_lines(ss, group_count(ss.len())) + more_groups(ss.len(), " more"@)
    }
}

fn add_duplicates(out: &mut Vec<String>, c: &Console, ds: &[DupCluster])
    requires
        c.verbosity >= 1,
    ensures
        final(out).deep_view() == old(out).deep_view() + duplicates_lines(*c, ds.deep_view()),
{
    let ghost start = out.deep_view();
    let ghost dv = ds.deep_view();
    assert(dv.len() == ds@.len());
    if ds.len() > 0 {
        if let Some(line) = crate::ui::warn(c, "exact-duplicate recordings (keep one, the rest are redundant):") {
            put(out, line);
        }
        let ghost head = out.deep_view();
        let mut i: usize = 0;
        assert(out.deep_view() =~= head + all_cluster_lines(dv, 0));
        while i < ds.len() && i < MAX_GROUPS
            invariant
                i <= ds@.len(),
                i <= MAX_GROUPS,
                dv == ds.deep_view(),
                out.deep_view() == head + all_cluster_lines(dv, i as int),
            decreases ds@.len() - i,
        {
            assert(dv[i as int] == ds@[i as int].deep_view());
            add_cluster(out, &ds[i]);
            assert(out.deep_view() =~= head + all_cluster_lines(dv, i + 1));
            i += 1;
        }
        assert(i == group_count(dv.len()));
        if ds.len() > MAX_GROUPS {
            let n = number(ds.len() - MAX_GROUPS);
            put(out, cat3("    … and ", n.as_str(), " more groups"));
        }
    }
    assert(out.deep_view() =~= start + duplicates_lines(*c, dv));
}

fn add_subsets(out: &mut Vec<String>, c: &Console, ss: &[SubsetEdition])
    requires
        c.verbosity >= 1,
    ensures
        final(out).deep_view() == old(out).deep_view() + subsets_lines(*c, ss.deep_view()),
{
    let ghost start = out.deep_view();
    let ghost sv = ss.deep_view();
    assert(sv.len() == ss@.len());
    if ss.len() > 0 {
        if let Some(line) = crate::ui::warn(
            c,
            "subset editions — one edition wholly contained in another (heuristic):",
        ) {
            put(out, line);
        }
        let ghost head = out.deep_view();
        let mut i: usize = 0;
        assert(out.deep_view() =~= head + all_subset_lines(sv, 0));
        while i < ss.len() && i < MAX_GROUPS
            invariant
                i <= ss@.len(),
                i <= MAX_GROUPS,
                sv == ss.deep_view(),
                out.deep_view() == head + all_subset_lines(sv, i as int),
            decreases ss@.len() - i,
        {
            assert(sv[i as int] == ss@[i as int].deep_view());
            add_subset(out, &ss[i]);
            assert(out.deep_view() =~= head + all_subset_lines(sv, i + 1));
            i += 1;
        }
        assert(i == group_count(sv.len()));
        if ss.len() > MAX_GROUPS {
            let n = number(ss.len() - MAX_GROUPS);
            put(out, cat3("    … and ", n.as_str(), " more"));
        }
    }
    assert(out.deep_view() =~= start + subsets_lines(*c, sv));
}

pub open spec fn dedup_lines(c: Console, r: crate::dedup::Report) -> Seq<Seq<char>> {
    let clean = r.exact_duplicates@.len() == 0 && r.subset_editions@.len() == 0;
    let head = result_lines(
        c,
        "dedup · "@ + decimal(r.total as nat) + " tracks scanned"@,
        false,
        seq![
            tally_of("duplicate-groups"@, r.exact_duplicates@.len(), Tone::Warn),
            tally_of("subset-editions"@, r.subset_editions@.len(), Tone::Warn),
            tally_of("redundant-files"@, redundant(r) as nat, Tone::Warn),
        ],
        hint_if(
            !clean,
            "nothing was deleted — review, then remove yourself or with `amdl dedup --print-rm`"@,
        ),
    );
    if clean || c.verbosity == 0 {
        head
    } else {
        head + duplicates_lines(c, r.exact_duplicates.deep_view()) + subsets_lines(c, r.subset_editions.deep_view())
    }
}

/// The lines on what is redundant in a library.
pub fn print_dedup(c: &Console, r: &crate::dedup::Report) -> (o: Vec<String>)
    ensures
        o.deep_view() == dedup_lines(*c, *r),
{
    let n = count_redundant(r);
    let clean = r.is_clean();
    let metrics: Vec<Metric> = vec![
        tally("duplicate-groups", r.exact_duplicates.len(), Tone::Warn),
        tally("subset-editions", r.subset_editions.len(), Tone::Warn),
        tally("redundant-files", n, Tone::Warn),
    ];
    assert(metrics.deep_view() =~= seq![
        tally_of("duplicate-groups"@, r.exact_duplicates@.len(), Tone::Warn),
        tally_of("subset-editions"@, r.subset_editions@.len(), Tone::Warn),
        tally_of("redundant-files"@, redundant(*r) as nat, Tone::Warn),
    ]);
    let mut hints: Vec<String> = Vec::new();
    assert(hints.deep_view() =~= seq![]);
    if !clean {
        put(
            &mut hints,
            "nothing was deleted — review, then remove yourself or with `amdl dedup --print-rm`".to_string(),
        );
    }
    let ghost hv = hint_if(
        !clean,
        "nothing was deleted — review, then remove yourself or with `amdl dedup --print-rm`"@,
    );
    assert(hints.deep_view() =~= hv);
    let total = number(r.total);
    let head = cat3("dedup · ", total.as_str(), " tracks scanned");
    let mut out = result(c, head.as_str(), false, &metrics, &hints);
    if clean || c.verbosity == 0 {
        return out;
    }
    add_duplicates(&mut out, c, &r.exact_duplicates);
    add_subsets(&mut out, c, &r.subset_editions);
    out
}

// ---- identify ----------------------------------------------------------------------------------

/// A score with eighteen places behind the point, as a percentage.
pub open spec fn percent(score: int) -> Seq<char> {
    if score < 0 {
        "-"@ + decimal(nearest((-score) as nat, 10_000_000_000_000_000))
    } else {
        decimal(nearest(score as nat, 10_000_000_000_000_000))
    }
}

fn percent_text(score: i64) -> (r: String)
    ensures
        r@ == percent(score as int),
{
    let a: u64 = if score < 0 {
        (-(score as i128)) as u64
    } else {
        score as u64
    };
    let q: u64 = a / 10_000_000_000_000_000;
    let rest: u64 = a % 10_000_000_000_000_000;
    let n: u64 = if rest > 5_000_000_000_000_000 || (rest == 5_000_000_000_000_000 && q % 2 == 1) {
        q + 1
    } else {
        q
    };
    assert(n == nearest(a as nat, 10_000_000_000_000_000));
    let t = decimal_text(n);
    if score < 0 {
        cat("-", t.as_str())
    } else {
        t
    }
}

pub open spec fn or_unknown(s: Option<Seq<char>>) -> Seq<char> {
    match s {
        Some(t) => t,
        None => "?"@,
    }
}

pub open spec fn match_text(file: Seq<char>, m: MatchV) -> Seq<char> {
    "  "@ + file + " → "@ + or_unknown(m.artist) + " — "@ + or_unknown(m.title) + " · "@ + or_unknown(m.album) + " ("@
        + percent(m.score) + "%)"@
}

fn known(s: &Option<String>) -> (r: &str)
    ensures
        r@ == or_unknown(s.deep_view()),
{
    match s {
        Some(t) => t.as_str(),
        None => "?",
    }
}

fn match_line(file: &str, m: &Match) -> (r: String)
    ensures
        r@ == match_text(file@, m.deep_view()),
{
    let p = percent_text(m.score);
    let mut o = cat5("  ", file, " → ", known(&m.artist), " — ");
    o.append(known(&m.title));
    o.append(" · ");
    o.append(known(&m.album));
    o.append(" (");
    o.append(p.as_str());
    o.append("%)");
    o
}

/// The lines of the matches among the first `n` files.
pub open spec fn match_lines(rs: Seq<FileResultV>, n: int) -> Seq<Seq<char>>
    decreases n,
{
    if n <= 0 {
        seq![]
    } else {
        match rs[n - 1].matched {
            Some(m) => match_lines(rs, n - 1).push(match_text(rs[n - 1].file, m)),
            None => match_lines(rs, n - 1),
        }
    }
}

pub open spec fn identify_metrics(r: crate::identify::Report) -> Seq<MetricV> {
    seq![
        MetricV {
            label: "matched"@,
            value: decimal(r.matched as nat) + "/"@ + decimal(r.total as nat),
            tone: if r.matched > 0 {
                Tone::Good
            } else {
                Tone::Dim
            },
        },
        tally_of(
            if r.dry_run {
                "would-apply"@
            } else {
                "applied"@
            },
            r.applied as nat,
            Tone::Good,
        ),
        tally_of("low-score"@, r.skipped_low_score as nat, Tone::Warn),
        tally_of("skipped-tagged"@, r.skipped_tagged as nat, Tone::Dim),
        tally_of("no-match"@, r.no_match as nat, Tone::Dim),
        tally_of("failed"@, r.failed as nat, Tone::Bad),
    ]
}

pub open spec fn identify_hints(r: crate::identify::Report) -> Seq<Seq<char>> {
    hint_if(
        r.matched > r.applied && !r.dry_run && r.applied == 0 && r.skipped_low_score == 0,
        "matches found — re-run with `--apply` to write them"@,
    ) + hint_if(
        r.skipped_low_score > 0,
        "some matches were below the score gate — lower `--min-score` only if you trust them"@,
    )
}

pub open spec fn identify_lines(c: Console, r: crate::identify::Report) -> Seq<Seq<char>> {
    let head = result_lines(c, "identify"@, r.dry_run, identify_metrics(r), identify_hints(r));
    if c.verbosity == 0 {
        head
    } else {
        head + match_lines(r.results.deep_view(), r.results@.len() as int)
    }
}

/// The lines on a run that identified tracks.
pub fn print_identify(c: &Console, r: &crate::identify::Report) -> (o: Vec<String>)
    ensures
        o.deep_view() == identify_lines(*c, *r),
{
    let matched = number(r.matched);
    let total = number(r.total);
    let share = cat3(matched.as_str(), "/", total.as_str());
    let metrics: Vec<Metric> = vec![
        crate::ui::metric(
            "matched",
            share.as_str(),
            if r.matched > 0 {
                Tone::Good
            } else {
                Tone::Dim
            },
        ),
        tally(
            if r.dry_run {
                "would-apply"
            } else {
                "applied"
            },
            r.applied,
            Tone::Good,
        ),
        tally("low-score", r.skipped_low_score, Tone::Warn),
        tally("skipped-tagged", r.skipped_tagged, Tone::Dim),
        tally("no-match", r.no_match, Tone::Dim),
        tally("failed", r.failed, Tone::Bad),
    ];
    assert(metrics.deep_view() =~= identify_metrics(*r));
    let mut hints: Vec<String> = Vec::new();
    assert(hints.deep_view() =~= seq![]);
    if r.matched > r.applied && !r.dry_run && r.applied == 0 && r.skipped_low_score == 0 {
        put(&mut hints, "matches found — re-run with `--apply` to write them".to_string());
    }
    if r.skipped_low_score > 0 {
        put(
            &mut hints,
            "some matches were below the score gate — lower `--min-score` only if you trust them".to_string(),
        );
    }
    assert(hints.deep_view() =~= identify_hints(*r));
    let mut out = result(c, "identify", r.dry_run, &metrics, &hints);
    if c.verbosity == 0 {
        return out;
    }
    let ghost head = out.deep_view();
    let ghost rv = r.results.deep_view();
    let mut i: usize = 0;
    assert(out.deep_view() =~= head + match_lines(rv, 0));
    while i < r.results.len()
        invariant
            i <= r.results@.len(),
            rv == r.results.deep_view(),
            out.deep_view() == head + match_lines(rv, i as int),
        decreases r.results@.len() - i,
    {
        let x = &r.results[i];
        assert(rv[i as int] == x.deep_view());
        if let Some(m) = &x.matched {
            assert(rv[i as int].matched == Some(m.deep_view()));
            put(&mut out, match_line(x.file.as_str(), m));
            assert(out.deep_view() =~= head + match_lines(rv, i + 1));
        }
        i += 1;
    }
    out
}

// ---- convert, lyrics, tag ----------------------------------------------------------------------

pub open spec fn convert_lines(c: Console, r: crate::convert::Report) -> Seq<Seq<char>> {
    let done = fitting((r.converted + r.copied) as nat);
    let all = fitting((fitting((done + r.skipped) as nat) + r.failed) as nat);
    result_lines(
        c,
        "convert · "@ + decimal(done as nat) + " of "@ + decimal(all as nat) + " → Opus"@,
        false,
        seq![
            tally_of("converted"@, r.converted as nat, Tone::Good),
            tally_of("copied"@, r.copied as nat, Tone::Good),
            tally_of("with-cover"@, r.with_cover as nat, Tone::Good),
            tally_of("lrc"@, r.lrc_copied as nat, Tone::Good),
            tally_of("skipped"@, r.skipped as nat, Tone::Dim),
            tally_of("failed"@, r.failed as nat, Tone::Bad),
        ],
        hint_if(
            r.failed > 0,
            "some files failed — `amdl doctor --source … --deep` to see which"@,
        ),
    )
}

/// The lines on a run that converted a library.
pub fn print_convert(c: &Console, r: &crate::convert::Report) -> (o: Vec<String>)
    ensures
        o.deep_view() == convert_lines(*c, *r),
{
    let metrics: Vec<Metric> = vec![
        tally("converted", r.converted, Tone::Good),
        tally("copied", r.copied, Tone::Good),
        tally("with-cover", r.with_cover, Tone::Good),
        tally("lrc", r.lrc_copied, Tone::Good),
        tally("skipped", r.skipped, Tone::Dim),
        tally("failed", r.failed, Tone::Bad),
    ];
    assert(metrics.deep_view() =~= seq![
        tally_of("converted"@, r.converted as nat, Tone::Good),
        tally_of("copied"@, r.copied as nat, Tone::Good),
        tally_of("with-cover"@, r.with_cover as nat, Tone::Good),
        tally_of("lrc"@, r.lrc_copied as nat, Tone::Good),
        tally_of("skipped"@, r.skipped as nat, Tone::Dim),
        tally_of("failed"@, r.failed as nat, Tone::Bad),
    ]);
    let mut hints: Vec<String> = Vec::new();
    assert(hints.deep_view() =~= seq![]);
    if r.failed > 0 {
        put(&mut hints, "some files failed — `amdl doctor --source … --deep` to see which".to_string());
    }
    let ghost hv = hint_if(
        r.failed > 0,
        "some files failed — `amdl doctor --source … --deep` to see which"@,
    );
    assert(hints.deep_view() =~= hv);
    let done = sum(r.converted, r.copied);
    let all = sum(sum(done, r.skipped), r.failed);
    let d = number(done);
    let a = number(all);
    let head = cat5("convert · ", d.as_str(), " of ", a.as_str(), " → Opus");
    result(c, head.as_str(), false, &metrics, &hints)
}

pub open spec fn lyrics_lines(c: Console, r: crate::lyrics::Report) -> Seq<Seq<char>> {
    result_lines(
        c,
        "lyrics · "@ + decimal(fitting((fitting((r.ok_synced + r.ok_plain) as nat) + r.upgraded) as nat) as nat)
            + " written"@,
        false,
        seq![
            tally_of("synced"@, r.ok_synced as nat, Tone::Good),
            tally_of("plain"@, r.ok_plain as nat, Tone::Good),
            tally_of("upgraded"@, r.upgraded as nat, Tone::Good),
            tally_of("aligned"@, r.aligned as nat, Tone::Good),
            tally_of("embedded"@, r.embedded as nat, Tone::Good),
            tally_of("not-found"@, r.not_found as nat, Tone::Dim),
            tally_of("instrumental"@, r.instrumental as nat, Tone::Dim),
            tally_of("no-meta"@, r.no_meta as nat, Tone::Dim),
            tally_of("skipped"@, r.skipped as nat, Tone::Dim),
        ],
        seq![],
    )
}

/// The lines on a run that filled lyrics.
pub fn print_lyrics(c: &Console, r: &crate::lyrics::Report) -> (o: Vec<String>)
    ensures
        o.deep_view() == lyrics_lines(*c, *r),
{
    let metrics: Vec<Metric> = vec![
        tally("synced", r.ok_synced, Tone::Good),
        tally("plain", r.ok_plain, Tone::Good),
        tally("upgraded", r.upgraded, Tone::Good),
        tally("aligned", r.aligned, Tone::Good),
        tally("embedded", r.embedded, Tone::Good),
        tally("not-found", r.not_found, Tone::Dim),
        tally("instrumental", r.instrumental, Tone::Dim),
        tally("no-meta", r.no_meta, Tone::Dim),
        tally("skipped", r.skipped, Tone::Dim),
    ];
    assert(metrics.deep_view() =~= seq![
        tally_of("synced"@, r.ok_synced as nat, Tone::Good),
        tally_of("plain"@, r.ok_plain as nat, Tone::Good),
        tally_of("upgraded"@, r.upgraded as nat, Tone::Good),
        tally_of("aligned"@, r.aligned as nat, Tone::Good),
        tally_of("embedded"@, r.embedded as nat, Tone::Good),
        tally_of("not-found"@, r.not_found as nat, Tone::Dim),
        tally_of("instrumental"@, r.instrumental as nat, Tone::Dim),
        tally_of("no-meta"@, r.no_meta as nat, Tone::Dim),
        tally_of("skipped"@, r.skipped as nat, Tone::Dim),
    ]);
    let n = number(sum(sum(r.ok_synced, r.ok_plain), r.upgraded));
    let head = cat3("lyrics · ", n.as_str(), " written");
    result(c, head.as_str(), false, &metrics, &no_hints())
}

/// What is said of a tag edit.
pub fn tag_message(r: &crate::retag::Report) -> (o: String)
    ensures
        o@ == "tagged "@ + decimal(r.changed as nat) + " of "@ + decimal(r.total as nat) + " (failed "@ + decimal(
            r.failed as nat,
        ) + ")"@ + (if r.dry_run {
            " [dry-run]"@
        } else {
            ""@
        }),
{
    let changed = number(r.changed);
    let total = number(r.total);
    let failed = number(r.failed);
    let mut o = cat5("tagged ", changed.as_str(), " of ", total.as_str(), " (failed ");
    o.append(failed.as_str());
    o.append(")");
    o.append(
        if r.dry_run {
            " [dry-run]"
        } else {
            ""
        },
    );
    o
}

/// The files that groups of one recording would let go, added up.
pub proof fn law_cluster_total(ds: Seq<DupClusterV>)
    ensures
        cluster_total(ds, ds.len() as int) == total(ds.map_values(|x: DupClusterV| x.remove.len() as int)),
{
    lemma_cluster_total(ds, ds.len() as int);
    assert(ds.take(ds.len() as int) =~= ds);
}

proof fn lemma_cluster_total(ds: Seq<DupClusterV>, n: int)
    requires
        0 <= n <= ds.len(),
    ensures
        cluster_total(ds, n) == total(ds.take(n).map_values(|x: DupClusterV| x.remove.len() as int)),
    decreases n,
{
    if n > 0 {
        lemma_cluster_total(ds, n - 1);
        let all = ds.take(n).map_values(|x: DupClusterV| x.remove.len() as int);
        assert(all.drop_last() =~= ds.take(n - 1).map_values(|x: DupClusterV| x.remove.len() as int));
        assert(ds.take(n)[n - 1] == ds[n - 1]);
    }
}

/// The files that smaller editions would let go, added up.
pub proof fn law_subset_total(ss: Seq<SubsetEditionV>)
    ensures
        subset_total(ss, ss.len() as int) == total(ss.map_values(|x: SubsetEditionV| x.remove.len() as int)),
{
    lemma_subset_total(ss, ss.len() as int);
    assert(ss.take(ss.len() as int) =~= ss);
}

proof fn lemma_subset_total(ss: Seq<SubsetEditionV>, n: int)
    requires
        0 <= n <= ss.len(),
    ensures
        subset_total(ss, n) == total(ss.take(n).map_values(|x: SubsetEditionV| x.remove.len() as int)),
    decreases n,
{
    if n > 0 {
        lemma_subset_total(ss, n - 1);
        let all = ss.take(n).map_values(|x: SubsetEditionV| x.remove.len() as int);
        assert(all.drop_last() =~= ss.take(n - 1).map_values(|x: SubsetEditionV| x.remove.len() as int));
        assert(ss.take(n)[n - 1] == ss[n - 1]);
    }
}

/// Every group is shown, in their order.
pub proof fn law_cluster_lines(ds: Seq<DupClusterV>)
    ensures
        all_cluster_lines(ds, ds.len() as int) == ds.map_values(|x: DupClusterV| cluster_lines(x)).flatten(),
{
    lemma_cluster_lines(ds, ds.len() as int);
    assert(ds.take(ds.len() as int) =~= ds);
}

proof fn lemma_cluster_lines(ds: Seq<DupClusterV>, n: int)
    requires
        0 <= n <= ds.len(),
    ensures
        all_cluster_lines(ds, n) == ds.take(n).map_values(|x: DupClusterV| cluster_lines(x)).flatten(),
    decreases n,
{
    let all = ds.take(n).map_values(|x: DupClusterV| cluster_lines(x));
    if n > 0 {
        lemma_cluster_lines(ds, n - 1);
        let before = ds.take(n - 1).map_values(|x: DupClusterV| cluster_lines(x));
        assert(all =~= before.push(all[n - 1]));
        assert(ds.take(n)[n - 1] == ds[n - 1]);
        lemma_flatten_push(before, all[n - 1]);
        assert(all_cluster_lines(ds, n) =~= before.flatten() + all[n - 1]);
    } else {
        assert(all =~= seq![]);
        assert(all.flatten() =~= seq![]);
    }
}

/// Every smaller edition is shown, in their order.
pub proof fn law_subset_lines(ss: Seq<SubsetEditionV>)
    ensures
        all_subset_lines(ss, ss.len() as int) == ss.map_values(|x: SubsetEditionV| subset_lines(x)).flatten(),
{
    lemma_subset_lines(ss, ss.len() as int);
    assert(ss.take(ss.len() as int) =~= ss);
}

proof fn lemma_subset_lines(ss: Seq<SubsetEditionV>, n: int)
    requires
        0 <= n <= ss.len(),
    ensures
        all_subset_lines(ss, n) == ss.take(n).map_values(|x: SubsetEditionV| subset_lines(x)).flatten(),
    decreases n,
{
    let all = ss.take(n).map_values(|x: SubsetEditionV| subset_lines(x));
    if n > 0 {
        lemma_subset_lines(ss, n - 1);
        let before = ss.take(n - 1).map_values(|x: SubsetEditionV| subset_lines(x));
        assert(all =~= before.push(all[n - 1]));
        assert(ss.take(n)[n - 1] == ss[n - 1]);
        lemma_flatten_push(before, all[n - 1]);
        assert(all_subset_lines(ss, n) =~= before.flatten() + all[n - 1]);
    } else {
        assert(all =~= seq![]);
        assert(all.flatten() =~= seq![]);
    }
}

/// Every file with a match is shown, in their order, and no other.
pub proof fn law_match_lines(rs: Seq<FileResultV>)
    ensures
        match_lines(rs, rs.len() as int) == rs.map_values(|x: FileResultV| match x.matched {
            Some(m) => seq![match_text(x.file, m)],
            None => seq![],
        }).flatten(),
{
    lemma_match_lines(rs, rs.len() as int);
    assert(rs.take(rs.len() as int) =~= rs);
}

proof fn lemma_match_lines(rs: Seq<FileResultV>, n: int)
    requires
        0 <= n <= rs.len(),
    ensures
        match_lines(rs, n) == rs.take(n).map_values(|x: FileResultV| match x.matched {
            Some(m) => seq![match_text(x.file, m)],
            None => seq![],
        }).flatten(),
    decreases n,
{
    let all = rs.take(n).map_values(|x: FileResultV| match x.matched {
            Some(m) => seq![match_text(x.file, m)],
            None => seq![],
        });
    if n > 0 {
        lemma_match_lines(rs, n - 1);
        let before = rs.take(n - 1).map_values(|x: FileResultV| match x.matched {
            Some(m) => seq![match_text(x.file, m)],
            None => seq![],
        });
        assert(all =~= before.push(all[n - 1]));
        assert(rs.take(n)[n - 1] == rs[n - 1]);
        lemma_flatten_push(before, all[n - 1]);
        assert(match_lines(rs, n) =~= before.flatten() + all[n - 1]);
    } else {
        assert(all =~= seq![]);
        assert(all.flatten() =~= seq![]);
    }
}

/// A list of files shows every one of them where the run is verbose; else it shows the first eight
/// and says how many more there are. Without a file it shows nothing.
pub proof fn law_file_list(c: Console, label: Seq<char>, v: Seq<Seq<char>>, i: int)
    ensures
        ({
            let l = file_list(c, label, v);
            let shown: int = if c.verbosity >= 2 || v.len() <= 8 {
                v.len() as int
            } else {
                8
            };
            &&& v.len() == 0 ==> l.len() == 0
            &&& v.len() > 0 ==> l.len() == 1 + shown + (if shown < v.len() {
                1int
            } else {
                0
            })
            &&& v.len() > 0 ==> l[0] == "  "@ + label + ":"@
            &&& 0 <= i < shown ==> l[i + 1] == "    "@ + v[i]
            &&& shown < v.len() ==> l[9] == "    … and "@ + decimal((v.len() - 8) as nat)
                + " more (--json for all, -v to list)"@
        }),
{
}

/// A column is filled up with blanks to its width, behind a text at its left and in front of one at
/// its right; a text that is too long is not cut.
pub proof fn law_columns(s: Seq<char>, width: int)
    ensures
        s.len() <= width ==> at_left(s, width).len() == width && at_right(s, width).len() == width,
        s.len() > width ==> at_left(s, width) == s && at_right(s, width) == s,
        at_left(s, width).take(s.len() as int) == s,
        at_right(s, width).skip(at_right(s, width).len() - s.len()) == s,
        forall|i: int| s.len() <= i < at_left(s, width).len() ==> #[trigger] at_left(s, width)[i] == ' ',
        forall|i: int| 0 <= i < at_right(s, width).len() - s.len() ==> #[trigger] at_right(s, width)[i] == ' ',
{
    let b = blanks(width - s.len());
    lemma_blanks(width - s.len());
    assert(at_left(s, width).take(s.len() as int) =~= s);
    assert(at_right(s, width).skip(b.len() as int) =~= s);
    if s.len() > width {
        assert(at_left(s, width) =~= s);
        assert(at_right(s, width) =~= s);
    }
    assert forall|i: int| s.len() <= i < at_left(s, width).len() implies #[trigger] at_left(s, width)[i] == ' ' by {
        assert(at_left(s, width)[i] == b[i - s.len()]);
    }
    assert forall|i: int| 0 <= i < at_right(s, width).len() - s.len() implies #[trigger] at_right(s, width)[i] == ' ' by {
        assert(at_right(s, width)[i] == b[i]);
    }
}

proof fn lemma_blanks(n: int)
    ensures
        n >= 0 ==> blanks(n).len() == n,
        n < 0 ==> blanks(n).len() == 0,
        forall|i: int| 0 <= i < blanks(n).len() ==> #[trigger] blanks(n)[i] == ' ',
    decreases n,
{
    if n > 0 {
        lemma_blanks(n - 1);
    }
}

/// A score is shown as the nearest whole percentage.
pub proof fn law_percent(score: int)
    requires
        score >= 0,
    ensures
        exists|p: nat|
            -10_000_000_000_000_000 <= 2 * (p * 10_000_000_000_000_000 - score) <= 10_000_000_000_000_000 && percent(score)
                == #[trigger] decimal(p),
        score > 0 ==> percent(-score) == "-"@ + percent(score),
{
    law_nearest(score as nat, 10_000_000_000_000_000);
    let p = nearest(score as nat, 10_000_000_000_000_000);
    assert(percent(score) == decimal(p));
}

/// A group shows what is kept and every file that could go, each on its own line and in order; so
/// does a smaller edition, under the edition that covers it.
pub proof fn law_groups_shown(d: DupClusterV, s: SubsetEditionV, i: int)
    ensures
        cluster_lines(d).len() == 2 + d.remove.len(),
        cluster_lines(d)[1] == "    keep:   "@ + d.keep,
        0 <= i < d.remove.len() ==> cluster_lines(d)[2 + i] == "    remove: "@ + d.remove[i],
        subset_lines(s).len() == 1 + s.remove.len(),
        subset_lines(s)[0] == "  "@ + s.artist + " — "@ + s.album + " ("@ + decimal(s.tracks as nat) + " tracks) ⊂ "@
            + s.covered_by,
        0 <= i < s.remove.len() ==> subset_lines(s)[1 + i] == "    remove: "@ + s.remove[i],
{
}

/// A look at a library's health is a problem exactly where a file cannot be read, was cut off or is
/// damaged; missing covers and tags and sources without a file are not. An overview is one exactly
/// where a file cannot be read, and identifying is one exactly where a file failed.
pub proof fn law_report_problems(h: crate::doctor::Health, s: Stats, r: crate::identify::Report)
    ensures
        has_problem(health_metrics(h)) <==> h.unreadable@.len() > 0 || h.truncated@.len() > 0 || h.corrupt@.len() > 0,
        has_problem(stats_metrics(s)) <==> s.unreadable > 0,
        has_problem(identify_metrics(r)) <==> r.failed > 0,
{
    let m = health_metrics(h);
    law_tally_problem("unreadable"@, h.unreadable@.len());
    law_tally_problem("truncated"@, h.truncated@.len());
    law_tally_problem("corrupt"@, h.corrupt@.len());
    assert(m[2] == tally_of("unreadable"@, h.unreadable@.len(), Tone::Bad));
    assert(m[3] == tally_of("truncated"@, h.truncated@.len(), Tone::Bad));
    assert(m[4] == tally_of("corrupt"@, h.corrupt@.len(), Tone::Bad));
    if has_problem(m) {
        let i = choose|i: int| 0 <= i < m.len() && is_problem(#[trigger] m[i]);
        assert(m[i].tone == Tone::Bad);
        assert(i == 2 || i == 3 || i == 4);
    }
    let n = stats_metrics(s);
    law_tally_problem("unreadable"@, s.unreadable as nat);
    assert(n[4] == tally_of("unreadable"@, s.unreadable as nat, Tone::Bad));
    if has_problem(n) {
        let i = choose|i: int| 0 <= i < n.len() && is_problem(#[trigger] n[i]);
        assert(n[i].tone == Tone::Bad);
        assert(i == 4);
    }
    let k = identify_metrics(r);
    law_tally_problem("failed"@, r.failed as nat);
    assert(k[5] == tally_of("failed"@, r.failed as nat, Tone::Bad));
    if has_problem(k) {
        let i = choose|i: int| 0 <= i < k.len() && is_problem(#[trigger] k[i]);
        assert(k[i].tone == Tone::Bad);
        assert(i == 5);
    }
}

/// Each count of a report stands under its own name.
pub proof fn law_report_counts(h: crate::doctor::Health, c: crate::covers::Report, r: crate::recover::Report)
    ensures
        health_metrics(h).contains(tally_of("missing-cover"@, h.missing_cover@.len(), Tone::Warn)),
        health_metrics(h).contains(tally_of("missing-tags"@, h.missing_tags@.len(), Tone::Warn)),
        health_metrics(h).contains(tally_of("no-opus"@, h.source_without_opus@.len(), Tone::Warn)),
        covers_metrics(c).contains(tally_of("filled"@, c.albums_filled as nat, Tone::Good)),
        covers_metrics(c).contains(tally_of("from-source"@, c.filled_from_source as nat, Tone::Good)),
        covers_metrics(c).contains(tally_of("from-reference"@, c.filled_from_reference as nat, Tone::Good)),
        covers_metrics(c).contains(tally_of("online"@, c.filled_online as nat, Tone::Good)),
        covers_metrics(c).contains(tally_of("still-need-cover"@, c.stragglers@.len(), Tone::Warn)),
        recover_metrics(r).contains(tally_of("broken"@, r.broken as nat, Tone::Warn)),
        recover_metrics(r).contains(tally_of("from-sibling"@, r.recovered_from_sibling as nat, Tone::Good)),
        recover_metrics(r).contains(tally_of("re-acquired"@, r.reacquired as nat, Tone::Good)),
        recover_metrics(r).contains(tally_of("regrouped"@, r.regrouped as nat, Tone::Good)),
        recover_metrics(r).contains(tally_of("still-broken"@, r.still_broken@.len(), Tone::Warn)),
{
    let a = health_metrics(h);
    assert(a[0] == tally_of("missing-cover"@, h.missing_cover@.len(), Tone::Warn));
    assert(a[1] == tally_of("missing-tags"@, h.missing_tags@.len(), Tone::Warn));
    assert(a[5] == tally_of("no-opus"@, h.source_without_opus@.len(), Tone::Warn));
    let b = covers_metrics(c);
    assert(b[0] == tally_of("filled"@, c.albums_filled as nat, Tone::Good));
    assert(b[1] == tally_of("from-source"@, c.filled_from_source as nat, Tone::Good));
    assert(b[2] == tally_of("from-reference"@, c.filled_from_reference as nat, Tone::Good));
    assert(b[3] == tally_of("online"@, c.filled_online as nat, Tone::Good));
    assert(b[4] == tally_of("still-need-cover"@, c.stragglers@.len(), Tone::Warn));
    let d = recover_metrics(r);
    assert(d[0] == tally_of("broken"@, r.broken as nat, Tone::Warn));
    assert(d[1] == tally_of("from-sibling"@, r.recovered_from_sibling as nat, Tone::Good));
    assert(d[2] == tally_of("re-acquired"@, r.reacquired as nat, Tone::Good));
    assert(d[3] == tally_of("regrouped"@, r.regrouped as nat, Tone::Good));
    assert(d[4] == tally_of("still-broken"@, r.still_broken@.len(), Tone::Warn));
}

/// A quiet report is its headline alone, on the line that always prints.
pub proof fn law_quiet_reports(c: Console, h: crate::doctor::Health, s: Stats, v: crate::covers::Report, r: crate::recover::Report, u: UndoReport, d: crate::dedup::Report, i: crate::identify::Report)
    requires
        c.verbosity == 0,
    ensures
        health_lines(c, h).len() == 1,
        stats_lines(c, s).len() == 1,
        covers_lines(c, v).len() == 1,
        recover_lines(c, r).len() == 1,
        undo_lines(c, u).len() == 1,
        dedup_lines(c, d).len() == 1,
        identify_lines(c, i).len() == 1,
{
}

} // verus!
