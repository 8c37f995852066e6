//! Converting a library to Opus: what is done with each file, and the report. A file that
//! is there already is left alone, so that a run can be taken up again.
use vstd::prelude::*;
use crate::path::{extension, extension_of};
use crate::text::{owned, same};

verus! {

pub open spec fn source_ext_list() -> Seq<Seq<char>> {
    seq!["m4a"@, "mp3"@, "flac"@, "opus"@]
}

/// The extensions of files that are converted.
pub fn source_exts() -> (r: Vec<&'static str>)
    ensures
        r.deep_view() == source_ext_list(),
{
    let v: Vec<&'static str> = vec!["m4a", "mp3", "flac", "opus"];
    assert(v.deep_view() =~= source_ext_list());
    v
}

/// What is done with a file.
#[derive(Clone, Copy, PartialEq, Eq, Structural, Debug)]
pub enum Step {
    /// Nothing: its output is there.
    Skip,
    /// Copy it: it is Opus already, and encoding it again would only lose quality.
    Copy,
    /// Encode it.
    Encode,
}

pub open spec fn step_of(input: Seq<char>, output_exists: bool) -> Step {
    if output_exists {
        Step::Skip
    } else if extension_of(input) == Some("opus"@) {
        Step::Copy
    } else {
        Step::Encode
    }
}

/// What is done with a file.
pub fn step(input: &str, output_exists: bool) -> (r: Step)
    ensures
        r == step_of(input@, output_exists),
{
    if output_exists {
        return Step::Skip;
    }
    match extension(input) {
        Some(e) => if same(e.as_str(), "opus") {
            Step::Copy
        } else {
            Step::Encode
        },
        None => Step::Encode,
    }
}

/// A run taken up again changes nothing that is there, and what is named `.opus` is never
/// encoded again.
pub proof fn law_resumable(input: Seq<char>)
    ensures
        step_of(input, true) == Step::Skip,
        extension_of(input) == Some("opus"@) ==> step_of(input, false) == Step::Copy,
{
}

/// Whether the lyrics beside a file are copied along: there are some, and none beside the
/// output.
pub fn mirrors_lrc(source_exists: bool, target_exists: bool) -> (r: bool)
    ensures
        r == (source_exists && !target_exists),
{
    source_exists && !target_exists
}

pub open spec fn encoder_arguments(input: Seq<char>, output: Seq<char>, bitrate: Seq<char>) -> Seq<Seq<char>> {
    seq![
        "-hide_banner"@,
        "-loglevel"@,
        "error"@,
        "-y"@,
        "-i"@,
        input,
        "-map"@,
        "0:a:0"@,
        "-c:a"@,
        "libopus"@,
        "-b:a"@,
        bitrate,
        "-vbr"@,
        "on"@,
        "-application"@,
        "audio"@,
        "-compression_level"@,
        "10"@,
        "-map_metadata"@,
        "0"@,
        output,
    ]
}

/// The arguments that the encoder is called with. Only the audio is taken: the cover is
/// put back as a picture afterwards.
pub fn encoder_args(input: &str, output: &str, bitrate: &str) -> (r: Vec<String>)
    ensures
        r.deep_view() == encoder_arguments(input@, output@, bitrate@),
{
    let v: Vec<&str> = vec![
        "-hide_banner", "-loglevel", "error", "-y", "-i", input, "-map", "0:a:0", "-c:a", "libopus", "-b:a", bitrate,
        "-vbr", "on", "-application", "audio", "-compression_level", "10", "-map_metadata", "0", output,
    ];
    assert(v.deep_view() =~= encoder_arguments(input@, output@, bitrate@));
    owned(v.as_slice())
}

/// The number of files that are worked on at once.
pub fn workers(jobs: usize) -> (r: usize)
    ensures
        r == (if jobs == 0 {
            1
        } else {
            jobs
        }),
{
    if jobs == 0 {
        1
    } else {
        jobs
    }
}

/// What came of a file.
#[derive(Clone, Copy, PartialEq, Eq, Structural, Debug)]
pub struct Outcome {
    pub step: Step,
    /// The output has a cover.
    pub cover: bool,
    /// The lyrics beside it were copied.
    pub lrc: bool,
}

#[derive(Clone, Copy, PartialEq, Eq, Structural, Debug)]
pub struct Report {
    pub converted: usize,
    pub copied: usize,
    pub skipped: usize,
    pub failed: usize,
    pub with_cover: usize,
    pub lrc_copied: usize,
}

impl Default for Report {
    fn default() -> (r: Report)
        ensures
            r == (Report { converted: 0, copied: 0, skipped: 0, failed: 0, with_cover: 0, lrc_copied: 0 }),
    {
        Report { converted: 0, copied: 0, skipped: 0, failed: 0, with_cover: 0, lrc_copied: 0 }
    }
}

/// What a file can be counted as.
#[derive(Clone, Copy, PartialEq, Eq, Structural)]
pub enum Kind {
    Converted,
    Copied,
    Skipped,
    Failed,
    WithCover,
    LrcCopied,
}

/// A file counts as this. One that failed has no outcome; a cover counts only where a
/// file was written.
pub open spec fn counts(o: Option<Outcome>, k: Kind) -> bool {
    match o {
        None => k == Kind::Failed,
        Some(x) => match k {
            Kind::Converted => x.step == Step::Encode,
            Kind::Copied => x.step == Step::Copy,
            Kind::Skipped => x.step == Step::Skip,
            Kind::Failed => false,
            Kind::WithCover => x.step != Step::Skip && x.cover,
            Kind::LrcCopied => x.lrc,
        },
    }
}

pub open spec fn count_of(os: Seq<Option<Outcome>>, k: Kind, n: int) -> nat
    decreases n,
{
    if n <= 0 {
        0
    } else if counts(os[n - 1], k) {
        count_of(os, k, n - 1) + 1
    } else {
        count_of(os, k, n - 1)
    }
}

fn counted(o: &Option<Outcome>, k: Kind) -> (r: bool)
    ensures
        r == counts(*o, k),
{
    match o {
        None => k == Kind::Failed,
        Some(x) => match k {
            Kind::Converted => x.step == Step::Encode,
            Kind::Copied => x.step == Step::Copy,
            Kind::Skipped => x.step == Step::Skip,
            Kind::Failed => false,
            Kind::WithCover => x.step != Step::Skip && x.cover,
            Kind::LrcCopied => x.lrc,
        },
    }
}

fn count(os: &[Option<Outcome>], k: Kind) -> (r: usize)
    ensures
        r == count_of(os@, k, os@.len() as int),
{
    let mut n: usize = 0;
    let mut i: usize = 0;
    while i < os.len()
        invariant
            i <= os@.len(),
            n <= i,
            n == count_of(os@, k, i as int),
        decreases os@.len() - i,
    {
        if counted(&os[i], k) {
            n += 1;
        }
        i += 1;
    }
    n
}

/// The report on a run over files that ended so.
pub fn summarize(outcomes: &[Option<Outcome>]) -> (r: Report)
    ensures
        r.converted == count_of(outcomes@, Kind::Converted, outcomes@.len() as int),
        r.copied == count_of(outcomes@, Kind::Copied, outcomes@.len() as int),
        r.skipped == count_of(outcomes@, Kind::Skipped, outcomes@.len() as int),
        r.failed == count_of(outcomes@, Kind::Failed, outcomes@.len() as int),
        r.with_cover == count_of(outcomes@, Kind::WithCover, outcomes@.len() as int),
        r.lrc_copied == count_of(outcomes@, Kind::LrcCopied, outcomes@.len() as int),
{
    Report {
        converted: count(outcomes, Kind::Converted),
        copied: count(outcomes, Kind::Copied),
        skipped: count(outcomes, Kind::Skipped),
        failed: count(outcomes, Kind::Failed),
        with_cover: count(outcomes, Kind::WithCover),
        lrc_copied: count(outcomes, Kind::LrcCopied),
    }
}

/// Every file is counted once: it was encoded, copied or skipped, or it failed.
pub proof fn law_counts_add_up(os: Seq<Option<Outcome>>, n: int)
    requires
        0 <= n <= os.len(),
    ensures
        count_of(os, Kind::Converted, n) + count_of(os, Kind::Copied, n) + count_of(os, Kind::Skipped, n) + count_of(
            os,
            Kind::Failed,
            n,
        ) == n,
        count_of(os, Kind::WithCover, n) <= count_of(os, Kind::Converted, n) + count_of(os, Kind::Copied, n),
    decreases n,
{
    if n > 0 {
        law_counts_add_up(os, n - 1);
    }
}

/// The converted ones are the files that were encoded.
pub proof fn law_converted(os: Seq<Option<Outcome>>)
    ensures
        count_of(os, Kind::Converted, os.len() as int) == os.filter(|x: Option<Outcome>| x matches Some(o) && o.step == Step::Encode).len(),
{
    lemma_converted(os, os.len() as int);
    assert(os.take(os.len() as int) =~= os);
}

proof fn lemma_converted(os: Seq<Option<Outcome>>, n: int)
    requires
        0 <= n <= os.len(),
    ensures
        count_of(os, Kind::Converted, n) == os.take(n).filter(|x: Option<Outcome>| x matches Some(o) && o.step == Step::Encode).len(),
    decreases n,
{
    reveal(Seq::filter);
    if n > 0 {
        lemma_converted(os, n - 1);
        assert(os.take(n).drop_last() =~= os.take(n - 1));
        assert(os.take(n).last() == os[n - 1]);
    }
}

/// The copied ones are the files that were copied.
pub proof fn law_copied(os: Seq<Option<Outcome>>)
    ensures
        count_of(os, Kind::Copied, os.len() as int) == os.filter(|x: Option<Outcome>| x matches Some(o) && o.step == Step::Copy).len(),
{
    lemma_copied(os, os.len() as int);
    assert(os.take(os.len() as int) =~= os);
}

proof fn lemma_copied(os: Seq<Option<Outcome>>, n: int)
    requires
        0 <= n <= os.len(),
    ensures
        count_of(os, Kind::Copied, n) == os.take(n).filter(|x: Option<Outcome>| x matches Some(o) && o.step == Step::Copy).len(),
    decreases n,
{
    reveal(Seq::filter);
    if n > 0 {
        lemma_copied(os, n - 1);
        assert(os.take(n).drop_last() =~= os.take(n - 1));
        assert(os.take(n).last() == os[n - 1]);
    }
}

/// The skipped ones are the files whose output was there.
pub proof fn law_skipped(os: Seq<Option<Outcome>>)
    ensures
        count_of(os, Kind::Skipped, os.len() as int) == os.filter(|x: Option<Outcome>| x matches Some(o) && o.step == Step::Skip).len(),
{
    lemma_skipped(os, os.len() as int);
    assert(os.take(os.len() as int) =~= os);
}

proof fn lemma_skipped(os: Seq<Option<Outcome>>, n: int)
    requires
        0 <= n <= os.len(),
    ensures
        count_of(os, Kind::Skipped, n) == os.take(n).filter(|x: Option<Outcome>| x matches Some(o) && o.step == Step::Skip).len(),
    decreases n,
{
    reveal(Seq::filter);
    if n > 0 {
        lemma_skipped(os, n - 1);
        assert(os.take(n).drop_last() =~= os.take(n - 1));
        assert(os.take(n).last() == os[n - 1]);
    }
}

/// The failed ones are the files that came to nothing.
pub proof fn law_failed(os: Seq<Option<Outcome>>)
    ensures
        count_of(os, Kind::Failed, os.len() as int) == os.filter(|x: Option<Outcome>| x is None).len(),
{
    lemma_failed(os, os.len() as int);
    assert(os.take(os.len() as int) =~= os);
}

proof fn lemma_failed(os: Seq<Option<Outcome>>, n: int)
    requires
        0 <= n <= os.len(),
    ensures
        count_of(os, Kind::Failed, n) == os.take(n).filter(|x: Option<Outcome>| x is None).len(),
    decreases n,
{
    reveal(Seq::filter);
    if n > 0 {
        lemma_failed(os, n - 1);
        assert(os.take(n).drop_last() =~= os.take(n - 1));
        assert(os.take(n).last() == os[n - 1]);
    }
}

/// Those with a cover are the files that were written with one.
pub proof fn law_with_cover(os: Seq<Option<Outcome>>)
    ensures
        count_of(os, Kind::WithCover, os.len() as int) == os.filter(|x: Option<Outcome>| x matches Some(o) && o.step != Step::Skip && o.cover).len(),
{
    lemma_with_cover(os, os.len() as int);
    assert(os.take(os.len() as int) =~= os);
}

proof fn lemma_with_cover(os: Seq<Option<Outcome>>, n: int)
    requires
        0 <= n <= os.len(),
    ensures
        count_of(os, Kind::WithCover, n) == os.take(n).filter(|x: Option<Outcome>| x matches Some(o) && o.step != Step::Skip && o.cover).len(),
    decreases n,
{
    reveal(Seq::filter);
    if n > 0 {
        lemma_with_cover(os, n - 1);
        assert(os.take(n).drop_last() =~= os.take(n - 1));
        assert(os.take(n).last() == os[n - 1]);
    }
}

/// Those with lyrics are the files beside which lyrics were copied.
pub proof fn law_lrc_copied(os: Seq<Option<Outcome>>)
    ensures
        count_of(os, Kind::LrcCopied, os.len() as int) == os.filter(|x: Option<Outcome>| x matches Some(o) && o.lrc).len(),
{
    lemma_lrc_copied(os, os.len() as int);
    assert(os.take(os.len() as int) =~= os);
}

proof fn lemma_lrc_copied(os: Seq<Option<Outcome>>, n: int)
    requires
        0 <= n <= os.len(),
    ensures
        count_of(os, Kind::LrcCopied, n) == os.take(n).filter(|x: Option<Outcome>| x matches Some(o) && o.lrc).len(),
    decreases n,
{
    reveal(Seq::filter);
    if n > 0 {
        lemma_lrc_copied(os, n - 1);
        assert(os.take(n).drop_last() =~= os.take(n - 1));
        assert(os.take(n).last() == os[n - 1]);
    }
}

/// What is done with a file that has no output: one named `.opus` is copied, any other encoded.
pub proof fn law_step(input: Seq<char>)
    ensures
        step_of(input, true) == Step::Skip,
        extension_of(input) == Some("opus"@) <==> step_of(input, false) == Step::Copy,
        extension_of(input) != Some("opus"@) <==> step_of(input, false) == Step::Encode,
{
}

/// The encoder reads the input, is told the bitrate, keeps the tags, takes the first audio stream
/// alone, and writes the output: its last argument.
pub proof fn law_encoder_arguments(input: Seq<char>, output: Seq<char>, bitrate: Seq<char>)
    ensures
        ({
            let a = encoder_arguments(input, output, bitrate);
            &&& a.len() > 0 && a[a.len() - 1] == output
            &&& exists|i: int| 0 <= i < a.len() - 2 && #[trigger] a[i] == "-i"@ && a[i + 1] == input
            &&& exists|i: int| 0 <= i < a.len() - 2 && #[trigger] a[i] == "-b:a"@ && a[i + 1] == bitrate
            &&& exists|i: int| 0 <= i < a.len() - 2 && #[trigger] a[i] == "-c:a"@ && a[i + 1] == "libopus"@
            &&& exists|i: int| 0 <= i < a.len() - 2 && #[trigger] a[i] == "-map"@ && a[i + 1] == "0:a:0"@
            &&& exists|i: int| 0 <= i < a.len() - 2 && #[trigger] a[i] == "-map_metadata"@ && a[i + 1] == "0"@
        }),
{
    let a = encoder_arguments(input, output, bitrate);
    assert(a[4] == "-i"@ && a[5] == input);
    assert(a[10] == "-b:a"@ && a[11] == bitrate);
    assert(a[8] == "-c:a"@ && a[9] == "libopus"@);
    assert(a[6] == "-map"@ && a[7] == "0:a:0"@);
    assert(a[18] == "-map_metadata"@ && a[19] == "0"@);
}

} // verus!
